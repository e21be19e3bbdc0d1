use vstd::prelude::*;

verus! {

/// Operation kind of a canonical replication message.
#[derive(Clone, Copy, PartialEq, Eq, Structural, Debug)]
pub enum Event {
    Insert,
    Update,
    Delete,
}

/// One field value of a document payload, as it appears on the wire.
///
/// Text and numbers are held as the raw bytes that the wire format carries:
/// `Num` holds a decimal integer literal (optional leading minus sign),
/// `Text` holds the UTF-8 bytes of a string that needs no JSON escaping.
#[derive(Clone, Debug)]
pub enum FieldValue {
    Null,
    Bool(bool),
    Num(Vec<u8>),
    Text(Vec<u8>),
}

/// Mathematical model of a `FieldValue`.
#[verifier::ext_equal]
pub ghost enum FieldValueModel {
    Null,
    Bool(bool),
    Num(Seq<u8>),
    Text(Seq<u8>),
}

/// A document payload: an ordered list of named fields.
#[derive(Clone, Debug)]
pub struct Doc {
    pub fields: Vec<(Vec<u8>, FieldValue)>,
}

/// Mathematical model of a `Doc`.
#[verifier::ext_equal]
pub ghost struct DocModel {
    pub fields: Seq<(Seq<u8>, FieldValueModel)>,
}

impl View for FieldValue {
    type V = FieldValueModel;

    open spec fn view(&self) -> FieldValueModel {
        match self {
            FieldValue::Null => FieldValueModel::Null,
            FieldValue::Bool(b) => FieldValueModel::Bool(*b),
            FieldValue::Num(n) => FieldValueModel::Num(n@),
            FieldValue::Text(t) => FieldValueModel::Text(t@),
        }
    }
}

impl View for Doc {
    type V = DocModel;

    open spec fn view(&self) -> DocModel {
        DocModel { fields: self.fields@.map_values(|f: (Vec<u8>, FieldValue)| (f.0@, f.1@)) }
    }
}

/// Text that can stand on the wire between quotes without escaping:
/// no quote, no backslash, no control byte.
pub open spec fn is_plain_text(s: Seq<u8>) -> bool {
    forall|i: int| 0 <= i < s.len() ==> 0x20 <= #[trigger] s[i] && s[i] != 0x22 && s[i] != 0x5c
}

/// A decimal integer literal: an optional minus sign, then one or more digits.
pub open spec fn is_num_literal(s: Seq<u8>) -> bool {
    &&& s.len() >= 1
    &&& (s[0] == 0x2d ==> s.len() >= 2)
    &&& forall|i: int| (if s[0] == 0x2d { 1int } else { 0int }) <= i < s.len()
        ==> 0x30 <= #[trigger] s[i] <= 0x39
}

impl FieldValueModel {
    /// A value the wire format can carry.
    pub open spec fn wf(self) -> bool {
        match self {
            FieldValueModel::Null => true,
            FieldValueModel::Bool(_) => true,
            FieldValueModel::Num(n) => is_num_literal(n),
            FieldValueModel::Text(t) => is_plain_text(t),
        }
    }
}

impl DocModel {
    /// A document the wire format can carry: plain field names, well-formed values.
    pub open spec fn wf(self) -> bool {
        forall|i: int| 0 <= i < self.fields.len()
            ==> is_plain_text(#[trigger] self.fields[i].0) && self.fields[i].1.wf()
    }
}

/// Canonical unit of replication: one observed change, delivered unmodified
/// to every configured sink.
#[derive(Clone, Debug)]
pub struct Message {
    /// The operation observed on the feed.
    pub event: Event,
    /// UTF-8 bytes of the source database name.
    pub db: Vec<u8>,
    /// UTF-8 bytes of the source collection name.
    pub coll: Vec<u8>,
    /// The document key: uniquely identifies the changed document in its namespace.
    pub id: Doc,
    /// The post-image; present for `Insert` and `Update`, absent for `Delete`.
    pub data: Option<Doc>,
}

/// Mathematical model of a `Message`.
#[verifier::ext_equal]
pub ghost struct MessageModel {
    pub event: Event,
    pub db: Seq<u8>,
    pub coll: Seq<u8>,
    pub id: DocModel,
    pub data: Option<DocModel>,
}

impl View for Message {
    type V = MessageModel;

    open spec fn view(&self) -> MessageModel {
        MessageModel {
            event: self.event,
            db: self.db@,
            coll: self.coll@,
            id: self.id@,
            data: match &self.data {
                Option::Some(d) => Option::Some(d@),
                Option::None => Option::None,
            },
        }
    }
}

impl MessageModel {
    /// A message the wire format can carry, with the shape the data model
    /// demands: a delete has no post-image, an insert or update has one.
    pub open spec fn wf(self) -> bool {
        &&& is_plain_text(self.db)
        &&& is_plain_text(self.coll)
        &&& self.db.len() >= 1
        &&& self.coll.len() >= 1
        &&& self.id.wf()
        &&& (self.event == Event::Delete <==> self.data is None)
        &&& (self.data is Some ==> self.data.unwrap().wf())
    }
}

impl Message {
    /// Whole-value well-formedness, stated over the model.
    pub open spec fn wf(&self) -> bool {
        self@.wf()
    }
}

/// Byte-wise equality, stated over the views.
pub fn bytes_eq(a: &Vec<u8>, b: &Vec<u8>) -> (r: bool)
    ensures
        r == (a@ == b@),
{
    if a.len() != b.len() {
        return false;
    }
    let mut i: usize = 0;
    while i < a.len()
        invariant
            a@.len() == b@.len(),
            i <= a@.len(),
            forall|q: int| 0 <= q < i ==> a@[q] == b@[q],
        decreases a@.len() - i,
    {
        if *(&a[i]) != *(&b[i]) {
            return false;
        }
        i = i + 1;
    }
    proof {
        assert(a@ =~= b@);
    }
    true
}

impl FieldValue {
    /// Value equality, stated over the models.
    pub fn eq_value(&self, o: &FieldValue) -> (r: bool)
        ensures
            r == (self@ == o@),
    {
        match (self, o) {
            (FieldValue::Null, FieldValue::Null) => true,
            (FieldValue::Bool(a), FieldValue::Bool(b)) => *a == *b,
            (FieldValue::Num(a), FieldValue::Num(b)) => bytes_eq(a, b),
            (FieldValue::Text(a), FieldValue::Text(b)) => bytes_eq(a, b),
            _ => false,
        }
    }
}

impl Doc {
    /// Document equality, stated over the models: same fields, same order.
    pub fn eq_doc(&self, o: &Doc) -> (r: bool)
        ensures
            r == (self@ == o@),
    {
        if self.fields.len() != o.fields.len() {
            proof {
                assert(self@.fields.len() != o@.fields.len());
            }
            return false;
        }
        let mut i: usize = 0;
        while i < self.fields.len()
            invariant
                self@.fields.len() == o@.fields.len(),
                self.fields@.len() == self@.fields.len(),
                o.fields@.len() == o@.fields.len(),
                i <= self.fields@.len(),
                forall|q: int| 0 <= q < i ==> self@.fields[q] == o@.fields[q],
            decreases self.fields@.len() - i,
        {
            let a = &self.fields[i];
            let b = &o.fields[i];
            if !bytes_eq(&a.0, &b.0) || !a.1.eq_value(&b.1) {
                proof {
                    assert(self@.fields[i as int] == (a.0@, a.1@));
                    assert(o@.fields[i as int] == (b.0@, b.1@));
                }
                return false;
            }
            i = i + 1;
            proof {
                assert(self@.fields[i - 1] == (a.0@, a.1@));
                assert(o@.fields[i - 1] == (b.0@, b.1@));
            }
        }
        proof {
            assert(self@.fields =~= o@.fields);
            assert(self@ =~= o@);
        }
        true
    }
}

impl Message {
    /// Message equality, stated over the models.
    pub fn eq_msg(&self, o: &Message) -> (r: bool)
        ensures
            r == (self@ == o@),
    {
        if self.event != o.event {
            return false;
        }
        if !bytes_eq(&self.db, &o.db) || !bytes_eq(&self.coll, &o.coll) {
            return false;
        }
        if !self.id.eq_doc(&o.id) {
            return false;
        }
        let r = match (&self.data, &o.data) {
            (Option::None, Option::None) => true,
            (Option::Some(a), Option::Some(b)) => a.eq_doc(b),
            _ => false,
        };
        proof {
            if r {
                assert(self@ =~= o@);
            }
        }
        r
    }
}

} // verus!
