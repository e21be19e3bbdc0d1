use vstd::prelude::*;

use crate::message::{
    is_num_literal, is_plain_text, Doc, DocModel, Event, FieldValue, FieldValueModel, Message,
    MessageModel,
};

verus! {

// The wire format, one JSON value per message:
//   {"event":"Insert","db":"shop","coll":"orders","id":{...},"data":{...}}
// `data` is null for a delete. Field names and text values carry bytes that
// need no JSON escaping (see `is_plain_text`), numbers are decimal literals.

pub open spec fn lit_null() -> Seq<u8> {
    seq![110u8, 117u8, 108u8, 108u8]
}

pub open spec fn lit_true() -> Seq<u8> {
    seq![116u8, 114u8, 117u8, 101u8]
}

pub open spec fn lit_false() -> Seq<u8> {
    seq![102u8, 97u8, 108u8, 115u8, 101u8]
}

/// `{"event":`
pub open spec fn lit_hdr_event() -> Seq<u8> {
    seq![123u8, 34u8, 101u8, 118u8, 101u8, 110u8, 116u8, 34u8, 58u8]
}

/// `,"db":`
pub open spec fn lit_sep_db() -> Seq<u8> {
    seq![44u8, 34u8, 100u8, 98u8, 34u8, 58u8]
}

/// `,"coll":`
pub open spec fn lit_sep_coll() -> Seq<u8> {
    seq![44u8, 34u8, 99u8, 111u8, 108u8, 108u8, 34u8, 58u8]
}

/// `,"id":`
pub open spec fn lit_sep_id() -> Seq<u8> {
    seq![44u8, 34u8, 105u8, 100u8, 34u8, 58u8]
}

/// `,"data":`
pub open spec fn lit_sep_data() -> Seq<u8> {
    seq![44u8, 34u8, 100u8, 97u8, 116u8, 97u8, 34u8, 58u8]
}

/// A text on the wire: the bytes between double quotes.
pub open spec fn spec_ser_text(t: Seq<u8>) -> Seq<u8> {
    seq![34u8] + t + seq![34u8]
}

/// The quoted tag of an event kind.
pub open spec fn spec_ser_event(e: Event) -> Seq<u8> {
    match e {
        Event::Insert => seq![34u8, 73u8, 110u8, 115u8, 101u8, 114u8, 116u8, 34u8],
        Event::Update => seq![34u8, 85u8, 112u8, 100u8, 97u8, 116u8, 101u8, 34u8],
        Event::Delete => seq![34u8, 68u8, 101u8, 108u8, 101u8, 116u8, 101u8, 34u8],
    }
}

pub open spec fn spec_ser_value(v: FieldValueModel) -> Seq<u8> {
    match v {
        FieldValueModel::Null => lit_null(),
        FieldValueModel::Bool(b) => if b {
            lit_true()
        } else {
            lit_false()
        },
        FieldValueModel::Num(n) => n,
        FieldValueModel::Text(t) => spec_ser_text(t),
    }
}

pub open spec fn spec_ser_field(f: (Seq<u8>, FieldValueModel)) -> Seq<u8> {
    spec_ser_text(f.0) + seq![58u8] + spec_ser_value(f.1)
}

/// The comma-separated fields from index `i` on.
pub open spec fn spec_ser_fields_from(fs: Seq<(Seq<u8>, FieldValueModel)>, i: int) -> Seq<u8>
    decreases fs.len() - i,
{
    if i < 0 || i >= fs.len() {
        Seq::empty()
    } else {
        (if i > 0 {
            seq![44u8]
        } else {
            Seq::empty()
        }) + spec_ser_field(fs[i]) + spec_ser_fields_from(fs, i + 1)
    }
}

pub open spec fn spec_ser_doc(d: DocModel) -> Seq<u8> {
    seq![123u8] + spec_ser_fields_from(d.fields, 0) + seq![125u8]
}

pub open spec fn spec_ser_data(d: Option<DocModel>) -> Seq<u8> {
    match d {
        Option::None => lit_null(),
        Option::Some(doc) => spec_ser_doc(doc),
    }
}

/// The whole wire image of a message.
pub open spec fn spec_ser_message(m: MessageModel) -> Seq<u8> {
    lit_hdr_event() + spec_ser_event(m.event) + lit_sep_db() + spec_ser_text(m.db)
        + lit_sep_coll() + spec_ser_text(m.coll) + lit_sep_id() + spec_ser_doc(m.id)
        + lit_sep_data() + spec_ser_data(m.data) + seq![125u8]
}

fn hdr_event_into(out: &mut Vec<u8>)
    ensures
        final(out)@ == old(out)@ + lit_hdr_event(),
{
    out.push(123);
    out.push(34);
    out.push(101);
    out.push(118);
    out.push(101);
    out.push(110);
    out.push(116);
    out.push(34);
    out.push(58);
    proof {
        assert(out@ =~= old(out)@ + lit_hdr_event());
    }
}

fn sep_db_into(out: &mut Vec<u8>)
    ensures
        final(out)@ == old(out)@ + lit_sep_db(),
{
    out.push(44);
    out.push(34);
    out.push(100);
    out.push(98);
    out.push(34);
    out.push(58);
    proof {
        assert(out@ =~= old(out)@ + lit_sep_db());
    }
}

fn sep_coll_into(out: &mut Vec<u8>)
    ensures
        final(out)@ == old(out)@ + lit_sep_coll(),
{
    out.push(44);
    out.push(34);
    out.push(99);
    out.push(111);
    out.push(108);
    out.push(108);
    out.push(34);
    out.push(58);
    proof {
        assert(out@ =~= old(out)@ + lit_sep_coll());
    }
}

fn sep_id_into(out: &mut Vec<u8>)
    ensures
        final(out)@ == old(out)@ + lit_sep_id(),
{
    out.push(44);
    out.push(34);
    out.push(105);
    out.push(100);
    out.push(34);
    out.push(58);
    proof {
        assert(out@ =~= old(out)@ + lit_sep_id());
    }
}

fn sep_data_into(out: &mut Vec<u8>)
    ensures
        final(out)@ == old(out)@ + lit_sep_data(),
{
    out.push(44);
    out.push(34);
    out.push(100);
    out.push(97);
    out.push(116);
    out.push(97);
    out.push(34);
    out.push(58);
    proof {
        assert(out@ =~= old(out)@ + lit_sep_data());
    }
}

fn null_into(out: &mut Vec<u8>)
    ensures
        final(out)@ == old(out)@ + lit_null(),
{
    out.push(110);
    out.push(117);
    out.push(108);
    out.push(108);
    proof {
        assert(out@ =~= old(out)@ + lit_null());
    }
}

fn event_into(out: &mut Vec<u8>, e: Event)
    ensures
        final(out)@ == old(out)@ + spec_ser_event(e),
{
    out.push(34);
    match e {
        Event::Insert => {
            out.push(73);
            out.push(110);
            out.push(115);
            out.push(101);
            out.push(114);
            out.push(116);
        },
        Event::Update => {
            out.push(85);
            out.push(112);
            out.push(100);
            out.push(97);
            out.push(116);
            out.push(101);
        },
        Event::Delete => {
            out.push(68);
            out.push(101);
            out.push(108);
            out.push(101);
            out.push(116);
            out.push(101);
        },
    }
    out.push(34);
    proof {
        assert(out@ =~= old(out)@ + spec_ser_event(e));
    }
}

fn bytes_into(out: &mut Vec<u8>, t: &Vec<u8>)
    ensures
        final(out)@ == old(out)@ + t@,
{
    let mut k: usize = 0;
    while k < t.len()
        invariant
            k <= t@.len(),
            out@ == old(out)@ + t@.take(k as int),
        decreases t@.len() - k,
    {
        let b = t[k];
        out.push(b);
        k = k + 1;
        proof {
            assert(t@.take(k as int) =~= t@.take(k as int - 1).push(t@[k as int - 1]));
            assert(out@ =~= old(out)@ + t@.take(k as int));
        }
    }
    proof {
        assert(t@.take(t@.len() as int) =~= t@);
    }
}

fn text_into(out: &mut Vec<u8>, t: &Vec<u8>)
    ensures
        final(out)@ == old(out)@ + spec_ser_text(t@),
{
    out.push(34);
    bytes_into(out, t);
    out.push(34);
    proof {
        assert(out@ =~= old(out)@ + spec_ser_text(t@));
    }
}

fn value_into(out: &mut Vec<u8>, v: &FieldValue)
    ensures
        final(out)@ == old(out)@ + spec_ser_value(v@),
{
    match v {
        FieldValue::Null => {
            null_into(out);
        },
        FieldValue::Bool(b) => {
            if *b {
                out.push(116);
                out.push(114);
                out.push(117);
                out.push(101);
                proof {
                    assert(out@ =~= old(out)@ + lit_true());
                }
            } else {
                out.push(102);
                out.push(97);
                out.push(108);
                out.push(115);
                out.push(101);
                proof {
                    assert(out@ =~= old(out)@ + lit_false());
                }
            }
        },
        FieldValue::Num(n) => {
            bytes_into(out, n);
        },
        FieldValue::Text(t) => {
            text_into(out, t);
        },
    }
}

fn doc_into(out: &mut Vec<u8>, d: &Doc)
    ensures
        final(out)@ == old(out)@ + spec_ser_doc(d@),
{
    let ghost fs = d@.fields;
    out.push(123);
    let mut i: usize = 0;
    while i < d.fields.len()
        invariant
            i <= d.fields@.len(),
            fs == d@.fields,
            fs.len() == d.fields@.len(),
            out@ + spec_ser_fields_from(fs, i as int) == old(out)@ + seq![123u8]
                + spec_ser_fields_from(fs, 0),
        decreases d.fields@.len() - i,
    {
        let ghost out_pre = out@;
        if i > 0 {
            out.push(44);
        }
        let f = &d.fields[i];
        text_into(out, &f.0);
        out.push(58);
        value_into(out, &f.1);
        i = i + 1;
        proof {
            assert(fs[i as int - 1] == (d.fields@[i as int - 1].0@, d.fields@[i as int - 1].1@));
            assert(out@ =~= out_pre + (if i as int - 1 > 0 {
                seq![44u8]
            } else {
                Seq::<u8>::empty()
            }) + spec_ser_field(fs[i as int - 1]));
            assert(out@ + spec_ser_fields_from(fs, i as int) =~= old(out)@ + seq![123u8]
                + spec_ser_fields_from(fs, 0));
        }
    }
    out.push(125);
    proof {
        assert(spec_ser_fields_from(fs, d.fields@.len() as int) =~= Seq::<u8>::empty());
        assert(out@ =~= old(out)@ + spec_ser_doc(d@));
    }
}

fn data_into(out: &mut Vec<u8>, d: &Option<Doc>)
    ensures
        final(out)@ == old(out)@ + spec_ser_data(crate::mapper::opt_doc_model(*d)),
{
    match d {
        Option::None => {
            null_into(out);
        },
        Option::Some(doc) => {
            doc_into(out, doc);
        },
    }
}

/// Serialize a message to its wire image: exactly `spec_ser_message` of its
/// model, one complete JSON value, ready for a newline delimiter.
pub fn serialize_message(m: &Message) -> (r: Vec<u8>)
    ensures
        r@ == spec_ser_message(m@),
{
    let mut out: Vec<u8> = Vec::new();
    hdr_event_into(&mut out);
    event_into(&mut out, m.event);
    sep_db_into(&mut out);
    text_into(&mut out, &m.db);
    sep_coll_into(&mut out);
    text_into(&mut out, &m.coll);
    sep_id_into(&mut out);
    doc_into(&mut out, &m.id);
    sep_data_into(&mut out);
    data_into(&mut out, &m.data);
    out.push(125);
    proof {
        assert(out@ =~= spec_ser_message(m@));
    }
    out
}

pub open spec fn is_digit(b: u8) -> bool {
    48 <= b <= 57
}

/// Two plain texts whose quoted images start the same region are the same
/// text: the closing quote is the first quote byte, so the split is unique.
pub proof fn lemma_text_prefix_unique(s: Seq<u8>, i: int, t1: Seq<u8>, t2: Seq<u8>)
    requires
        is_plain_text(t1),
        is_plain_text(t2),
        0 <= i,
        i + t1.len() + 2 <= s.len(),
        i + t2.len() + 2 <= s.len(),
        s.subrange(i, i + t1.len() + 2) == spec_ser_text(t1),
        s.subrange(i, i + t2.len() + 2) == spec_ser_text(t2),
    ensures
        t1 == t2,
{
    if t1.len() < t2.len() {
        assert(s[i + 1 + t1.len()] == spec_ser_text(t1)[1 + t1.len() as int]);
        assert(s[i + 1 + t1.len()] == 34);
        assert(s[i + 1 + t1.len()] == spec_ser_text(t2)[1 + t1.len() as int]);
        assert(spec_ser_text(t2)[1 + t1.len() as int] == t2[t1.len() as int]);
        assert(false);
    } else if t2.len() < t1.len() {
        assert(s[i + 1 + t2.len()] == spec_ser_text(t2)[1 + t2.len() as int]);
        assert(s[i + 1 + t2.len()] == 34);
        assert(s[i + 1 + t2.len()] == spec_ser_text(t1)[1 + t2.len() as int]);
        assert(spec_ser_text(t1)[1 + t2.len() as int] == t1[t2.len() as int]);
        assert(false);
    } else {
        assert forall|k: int| 0 <= k < t1.len() implies t1[k] == t2[k] by {
            assert(t1[k] == spec_ser_text(t1)[1 + k]);
            assert(spec_ser_text(t1)[1 + k] == s[i + 1 + k]);
            assert(s[i + 1 + k] == spec_ser_text(t2)[1 + k]);
        }
        assert(t1 =~= t2);
    }
}

/// Two number literals in the same region, each followed there by a
/// non-digit, are the same literal: the digit run ends at one place.
pub proof fn lemma_num_prefix_unique(s: Seq<u8>, i: int, n1: Seq<u8>, n2: Seq<u8>)
    requires
        is_num_literal(n1),
        is_num_literal(n2),
        0 <= i,
        i + n1.len() <= s.len(),
        i + n2.len() <= s.len(),
        s.subrange(i, i + n1.len()) == n1,
        s.subrange(i, i + n2.len()) == n2,
        i + n1.len() == s.len() || !is_digit(s[i + n1.len()]),
        i + n2.len() == s.len() || !is_digit(s[i + n2.len()]),
    ensures
        n1 == n2,
{
    if n1.len() < n2.len() {
        assert(s[i + n1.len()] == n2[n1.len() as int]);
        assert(is_digit(n2[n1.len() as int]));
        assert(false);
    } else if n2.len() < n1.len() {
        assert(s[i + n2.len()] == n1[n2.len() as int]);
        assert(is_digit(n1[n2.len() as int]));
        assert(false);
    } else {
        assert forall|k: int| 0 <= k < n1.len() implies n1[k] == n2[k] by {
            assert(n1[k] == s[i + k]);
            assert(n2[k] == s[i + k]);
        }
        assert(n1 =~= n2);
    }
}

/// Scan a quoted plain text starting at `i`. Sound: what comes back is
/// exactly the image of the consumed region. Complete: a well-formed quoted
/// text at `i` is always accepted.
fn parse_text(buf: &Vec<u8>, i: usize) -> (r: Option<(Vec<u8>, usize)>)
    requires
        i <= buf@.len(),
    ensures
        r matches Option::Some(p) ==> i < p.1 <= buf@.len() && is_plain_text(p.0@)
            && buf@.subrange(i as int, p.1 as int) == spec_ser_text(p.0@)
            && p.1 == i + p.0@.len() + 2,
        forall|t: Seq<u8>|
            is_plain_text(t) && i + t.len() + 2 <= buf@.len() && buf@.subrange(
                i as int,
                i + t.len() + 2,
            ) == spec_ser_text(t) ==> r is Some,
{
    if i >= buf.len() || *(&buf[i]) != 34u8 {
        proof {
            assert forall|t: Seq<u8>|
                is_plain_text(t) && i + t.len() + 2 <= buf@.len() && buf@.subrange(
                    i as int,
                    i + t.len() + 2,
                ) == spec_ser_text(t) implies false by {
                assert(buf@[i as int] == spec_ser_text(t)[0]);
            }
        }
        return Option::None;
    }
    let mut j: usize = i + 1;
    let mut t: Vec<u8> = Vec::new();
    loop
        invariant
            i < buf@.len(),
            buf@[i as int] == 34,
            i + 1 <= j <= buf@.len(),
            t@ == buf@.subrange(i as int + 1, j as int),
            is_plain_text(t@),
        decreases buf@.len() - j,
    {
        if j >= buf.len() {
            proof {
                assert forall|tt: Seq<u8>|
                    is_plain_text(tt) && i + tt.len() + 2 <= buf@.len() && buf@.subrange(
                        i as int,
                        i + tt.len() + 2,
                    ) == spec_ser_text(tt) implies false by {
                    let q = i + 1 + tt.len();
                    assert(buf@[q] == spec_ser_text(tt)[1 + tt.len() as int]);
                    assert(buf@[q] == 34);
                    assert(q < j);
                    assert(t@[q - i - 1] == buf@[q]);
                    assert(t@[q - i - 1] != 34);
                }
            }
            return Option::None;
        }
        let b = buf[j];
        if b == 34 {
            proof {
                assert(buf@.subrange(i as int, j as int + 1) =~= spec_ser_text(t@));
            }
            return Option::Some((t, j + 1));
        }
        if b < 32 || b == 92 {
            proof {
                assert forall|tt: Seq<u8>|
                    is_plain_text(tt) && i + tt.len() + 2 <= buf@.len() && buf@.subrange(
                        i as int,
                        i + tt.len() + 2,
                    ) == spec_ser_text(tt) implies false by {
                    let q = i + 1 + tt.len();
                    assert(buf@[q] == spec_ser_text(tt)[1 + tt.len() as int]);
                    assert(buf@[q] == 34);
                    if q < j {
                        assert(t@[q - i - 1] == buf@[q]);
                        assert(t@[q - i - 1] != 34);
                    } else if q == j {
                        assert(buf@[j as int] != 34);
                    } else {
                        assert(j - i - 1 < tt.len());
                        assert(buf@[j as int] == spec_ser_text(tt)[j - i]);
                        assert(spec_ser_text(tt)[j - i] == tt[j - i - 1]);
                    }
                }
            }
            return Option::None;
        }
        t.push(b);
        j = j + 1;
        proof {
            assert(t@ =~= buf@.subrange(i as int + 1, j as int));
        }
    }
}

/// Scan a decimal integer literal starting at `i`. Sound and, for a literal
/// followed by a non-digit (or the end), complete.
fn parse_num(buf: &Vec<u8>, i: usize) -> (r: Option<(Vec<u8>, usize)>)
    requires
        i <= buf@.len(),
    ensures
        r matches Option::Some(p) ==> i < p.1 <= buf@.len() && is_num_literal(p.0@)
            && buf@.subrange(i as int, p.1 as int) == p.0@ && p.1 == i + p.0@.len()
            && (p.1 == buf@.len() || !is_digit(buf@[p.1 as int])),
        forall|n: Seq<u8>|
            is_num_literal(n) && i + n.len() <= buf@.len() && buf@.subrange(i as int, i + n.len())
                == n && (i + n.len() == buf@.len() || !is_digit(buf@[i + n.len()])) ==> r is Some,
{
    let mut j: usize = i;
    let mut t: Vec<u8> = Vec::new();
    let mut has_minus: bool = false;
    if j < buf.len() && *(&buf[j]) == 45u8 {
        t.push(45);
        j = j + 1;
        has_minus = true;
    }
    let ghost d0 = j as int;
    let mut digits: usize = 0;
    loop
        invariant
            i <= j <= buf@.len(),
            d0 == if has_minus { i + 1 } else { i as int },
            has_minus ==> i < buf@.len() && buf@[i as int] == 45,
            !has_minus ==> (i == buf@.len() || buf@[i as int] != 45),
            j - d0 == digits,
            t@ == buf@.subrange(i as int, j as int),
            forall|k: int| d0 <= k < j ==> is_digit(buf@[k]),
            t@.len() == j - i,
        ensures
            j == buf@.len() || !is_digit(buf@[j as int]),
        decreases buf@.len() - j,
    {
        if j >= buf.len() {
            break;
        }
        let b = buf[j];
        if b < 48 || b > 57 {
            break;
        }
        t.push(b);
        j = j + 1;
        digits = digits + 1;
        proof {
            assert(t@ =~= buf@.subrange(i as int, j as int));
        }
    }
    // at exit: j == buf.len() or buf[j] is not a digit
    if digits == 0 {
        proof {
            assert forall|n: Seq<u8>|
                is_num_literal(n) && i + n.len() <= buf@.len() && buf@.subrange(
                    i as int,
                    i + n.len(),
                ) == n && (i + n.len() == buf@.len() || !is_digit(buf@[i + n.len()]))
                    implies false by {
                if n[0] == 45 {
                    assert(buf@[i as int] == 45);
                    assert(has_minus);
                    assert(n.len() >= 2);
                    assert(is_digit(n[1]));
                    assert(buf@[i + 1] == n[1]);
                    assert(j == i + 1);
                    assert(j < buf@.len() && is_digit(buf@[j as int]));
                } else {
                    assert(is_digit(n[0]));
                    assert(buf@[i as int] == n[0]);
                    assert(!has_minus);
                    assert(j == i);
                    assert(j < buf@.len() && is_digit(buf@[j as int]));
                }
            }
        }
        return Option::None;
    }
    proof {
        assert(is_num_literal(t@));
        assert(j == buf@.len() || !is_digit(buf@[j as int]));
    }
    Option::Some((t, j))
}

/// The bytes at `i` are exactly `l`.
pub open spec fn lit_at(s: Seq<u8>, i: int, l: Seq<u8>) -> bool {
    &&& 0 <= i
    &&& i + l.len() <= s.len()
    &&& s.subrange(i, i + l.len()) == l
}

/// A well-formed value's image at `i`, followed — when it is a number — by
/// something that cannot extend the digit run.
pub open spec fn value_image_at(s: Seq<u8>, i: int, v: FieldValueModel) -> bool {
    &&& v.wf()
    &&& lit_at(s, i, spec_ser_value(v))
    &&& (v matches FieldValueModel::Num(n) ==> (i + n.len() == s.len() || !is_digit(
        s[i + n.len()],
    )))
}

/// A well-formed document's image at `i`.
pub open spec fn doc_image_at(s: Seq<u8>, i: int, d: DocModel) -> bool {
    &&& d.wf()
    &&& lit_at(s, i, spec_ser_doc(d))
}

/// Match the fixed bytes `lit` at `i`.
fn eat_lit(buf: &Vec<u8>, i: usize, lit: &Vec<u8>) -> (r: Option<usize>)
    requires
        i <= buf@.len(),
    ensures
        r matches Option::Some(j) ==> j == i + lit@.len() && j <= buf@.len() && buf@.subrange(
            i as int,
            j as int,
        ) == lit@,
        lit_at(buf@, i as int, lit@) ==> r is Some,
{
    if buf.len() - i < lit.len() {
        return Option::None;
    }
    let mut k: usize = 0;
    while k < lit.len()
        invariant
            k <= lit@.len(),
            i + lit@.len() <= buf@.len(),
            forall|q: int| 0 <= q < k ==> buf@[i + q] == lit@[q],
        decreases lit@.len() - k,
    {
        proof {
            assert(i + k < buf@.len());
            assert(buf@.len() == buf.len());
        }
        if *(&buf[i + k]) != *(&lit[k]) {
            proof {
                assert(lit_at(buf@, i as int, lit@) ==> buf@.subrange(
                    i as int,
                    i + lit@.len(),
                )[k as int] == lit@[k as int]);
            }
            return Option::None;
        }
        k = k + 1;
    }
    proof {
        assert(buf@.subrange(i as int, i + lit@.len()) =~= lit@);
    }
    Option::Some(i + lit.len())
}

fn lit_vec_null() -> (r: Vec<u8>)
    ensures
        r@ == lit_null(),
{
    let mut v: Vec<u8> = Vec::new();
    null_into(&mut v);
    v
}

/// Parse one field value at `i`. Sound: the consumed region is exactly the
/// image of the returned value. Complete: a well-formed value image at `i`
/// (with a digit-run delimiter after a number) is always accepted.
fn parse_value(buf: &Vec<u8>, i: usize) -> (r: Option<(FieldValue, usize)>)
    requires
        i <= buf@.len(),
    ensures
        r matches Option::Some(p) ==> i < p.1 <= buf@.len() && p.0@.wf() && buf@.subrange(
            i as int,
            p.1 as int,
        ) == spec_ser_value(p.0@) && p.1 == i + spec_ser_value(p.0@).len() && (p.0
            matches FieldValue::Num(nn) ==> (p.1 == buf@.len() || !is_digit(buf@[p.1 as int]))),
        forall|v: FieldValueModel| value_image_at(buf@, i as int, v) ==> r is Some,
{
    if i >= buf.len() {
        proof {
            assert forall|v: FieldValueModel| value_image_at(buf@, i as int, v) implies false by {
                assert(spec_ser_value(v).len() >= 1);
            }
        }
        return Option::None;
    }
    let b = buf[i];
    if b == 34 {
        match parse_text(buf, i) {
            Option::Some((t, j)) => {
                return Option::Some((FieldValue::Text(t), j));
            },
            Option::None => {
                proof {
                    assert forall|v: FieldValueModel|
                        value_image_at(buf@, i as int, v) implies false by {
                        match v {
                            FieldValueModel::Null => {
                                assert(buf@[i as int] == lit_null()[0]);
                            },
                            FieldValueModel::Bool(bb) => {
                                assert(buf@[i as int] == spec_ser_value(v)[0]);
                            },
                            FieldValueModel::Num(n) => {
                                assert(buf@[i as int] == n[0]);
                            },
                            FieldValueModel::Text(t) => {
                                assert(buf@.subrange(i as int, i + t.len() + 2)
                                    == spec_ser_text(t));
                            },
                        }
                    }
                }
                return Option::None;
            },
        }
    }
    if b == 45 || (48 <= b && b <= 57) {
        match parse_num(buf, i) {
            Option::Some((n, j)) => {
                return Option::Some((FieldValue::Num(n), j));
            },
            Option::None => {
                proof {
                    assert forall|v: FieldValueModel|
                        value_image_at(buf@, i as int, v) implies false by {
                        match v {
                            FieldValueModel::Null => {
                                assert(buf@[i as int] == lit_null()[0]);
                            },
                            FieldValueModel::Bool(bb) => {
                                assert(buf@[i as int] == spec_ser_value(v)[0]);
                            },
                            FieldValueModel::Num(n) => {
                                assert(buf@.subrange(i as int, i + n.len()) == n);
                            },
                            FieldValueModel::Text(t) => {
                                assert(buf@[i as int] == spec_ser_text(t)[0]);
                            },
                        }
                    }
                }
                return Option::None;
            },
        }
    }
    // null / true / false by first byte
    let lit_n = lit_vec_null();
    if b == 110 {
        match eat_lit(buf, i, &lit_n) {
            Option::Some(j) => {
                return Option::Some((FieldValue::Null, j));
            },
            Option::None => {
                proof {
                    assert forall|v: FieldValueModel|
                        value_image_at(buf@, i as int, v) implies false by {
                        match v {
                            FieldValueModel::Null => {},
                            FieldValueModel::Bool(bb) => {
                                assert(buf@[i as int] == spec_ser_value(v)[0]);
                            },
                            FieldValueModel::Num(n) => {
                                assert(buf@[i as int] == n[0]);
                            },
                            FieldValueModel::Text(t) => {
                                assert(buf@[i as int] == spec_ser_text(t)[0]);
                            },
                        }
                    }
                }
                return Option::None;
            },
        }
    }
    let mut lit_t: Vec<u8> = Vec::new();
    lit_t.push(116);
    lit_t.push(114);
    lit_t.push(117);
    lit_t.push(101);
    proof {
        assert(lit_t@ =~= lit_true());
    }
    if b == 116 {
        match eat_lit(buf, i, &lit_t) {
            Option::Some(j) => {
                return Option::Some((FieldValue::Bool(true), j));
            },
            Option::None => {
                proof {
                    assert forall|v: FieldValueModel|
                        value_image_at(buf@, i as int, v) implies false by {
                        match v {
                            FieldValueModel::Null => {
                                assert(buf@[i as int] == lit_null()[0]);
                            },
                            FieldValueModel::Bool(bb) => {
                                assert(buf@[i as int] == spec_ser_value(v)[0]);
                            },
                            FieldValueModel::Num(n) => {
                                assert(buf@[i as int] == n[0]);
                            },
                            FieldValueModel::Text(t) => {
                                assert(buf@[i as int] == spec_ser_text(t)[0]);
                            },
                        }
                    }
                }
                return Option::None;
            },
        }
    }
    let mut lit_f: Vec<u8> = Vec::new();
    lit_f.push(102);
    lit_f.push(97);
    lit_f.push(108);
    lit_f.push(115);
    lit_f.push(101);
    proof {
        assert(lit_f@ =~= lit_false());
    }
    if b == 102 {
        match eat_lit(buf, i, &lit_f) {
            Option::Some(j) => {
                return Option::Some((FieldValue::Bool(false), j));
            },
            Option::None => {
                proof {
                    assert forall|v: FieldValueModel|
                        value_image_at(buf@, i as int, v) implies false by {
                        match v {
                            FieldValueModel::Null => {
                                assert(buf@[i as int] == lit_null()[0]);
                            },
                            FieldValueModel::Bool(bb) => {
                                assert(buf@[i as int] == spec_ser_value(v)[0]);
                            },
                            FieldValueModel::Num(n) => {
                                assert(buf@[i as int] == n[0]);
                            },
                            FieldValueModel::Text(t) => {
                                assert(buf@[i as int] == spec_ser_text(t)[0]);
                            },
                        }
                    }
                }
                return Option::None;
            },
        }
    }
    proof {
        assert forall|v: FieldValueModel| value_image_at(buf@, i as int, v) implies false by {
            match v {
                FieldValueModel::Null => {
                    assert(buf@[i as int] == lit_null()[0]);
                },
                FieldValueModel::Bool(bb) => {
                    assert(buf@[i as int] == spec_ser_value(v)[0]);
                },
                FieldValueModel::Num(n) => {
                    assert(buf@[i as int] == n[0]);
                },
                FieldValueModel::Text(t) => {
                    assert(buf@[i as int] == spec_ser_text(t)[0]);
                },
            }
        }
    }
    Option::None
}

/// Two well-formed value images starting at the same place are the same
/// value: the first byte fixes the variant, and each variant's image is
/// unambiguous in place.
pub proof fn lemma_value_prefix_unique(s: Seq<u8>, b: int, v1: FieldValueModel, v2: FieldValueModel)
    requires
        value_image_at(s, b, v1),
        value_image_at(s, b, v2),
    ensures
        v1 == v2,
{
    assert(s[b] == spec_ser_value(v1)[0]);
    assert(s[b] == spec_ser_value(v2)[0]);
    match v1 {
        FieldValueModel::Null => {
            match v2 {
                FieldValueModel::Null => {},
                FieldValueModel::Bool(b2) => {
                    assert(false);
                },
                FieldValueModel::Num(n2) => {
                    assert(is_digit(n2[0]) || n2[0] == 45);
                    assert(false);
                },
                FieldValueModel::Text(t2) => {
                    assert(false);
                },
            }
        },
        FieldValueModel::Bool(b1) => {
            match v2 {
                FieldValueModel::Null => {
                    assert(false);
                },
                FieldValueModel::Bool(b2) => {
                    if b1 != b2 {
                        assert(false);
                    }
                },
                FieldValueModel::Num(n2) => {
                    assert(is_digit(n2[0]) || n2[0] == 45);
                    assert(false);
                },
                FieldValueModel::Text(t2) => {
                    assert(false);
                },
            }
        },
        FieldValueModel::Num(n1) => {
            assert(is_digit(n1[0]) || n1[0] == 45);
            match v2 {
                FieldValueModel::Null => {
                    assert(false);
                },
                FieldValueModel::Bool(b2) => {
                    assert(false);
                },
                FieldValueModel::Num(n2) => {
                    lemma_num_prefix_unique(s, b, n1, n2);
                },
                FieldValueModel::Text(t2) => {
                    assert(false);
                },
            }
        },
        FieldValueModel::Text(t1) => {
            match v2 {
                FieldValueModel::Null => {
                    assert(false);
                },
                FieldValueModel::Bool(b2) => {
                    assert(false);
                },
                FieldValueModel::Num(n2) => {
                    assert(is_digit(n2[0]) || n2[0] == 45);
                    assert(false);
                },
                FieldValueModel::Text(t2) => {
                    lemma_text_prefix_unique(s, b, t1, t2);
                },
            }
        },
    }
}

/// Appending one more field extends the field image by a comma (except for
/// the first field) and that field's image.
pub proof fn lemma_fields_append(fs: Seq<(Seq<u8>, FieldValueModel)>, k: int, a: int)
    requires
        0 <= a <= k < fs.len(),
    ensures
        spec_ser_fields_from(fs.take(k + 1), a) == spec_ser_fields_from(fs.take(k), a) + (if k > 0 {
            seq![44u8]
        } else {
            Seq::<u8>::empty()
        }) + spec_ser_field(fs[k]),
    decreases k - a,
{
    let f1 = fs.take(k + 1);
    let f2 = fs.take(k);
    if a == k {
        assert(spec_ser_fields_from(f1, k + 1) =~= Seq::<u8>::empty());
        assert(f1[k] == fs[k]);
        assert(spec_ser_fields_from(f1, a) =~= spec_ser_fields_from(f2, a) + (if k > 0 {
            seq![44u8]
        } else {
            Seq::<u8>::empty()
        }) + spec_ser_field(fs[k]));
    } else {
        lemma_fields_append(fs, k, a + 1);
        assert(f1[a] == fs[a]);
        assert(f2[a] == fs[a]);
        assert(spec_ser_fields_from(f1, a) =~= spec_ser_fields_from(f2, a) + (if k > 0 {
            seq![44u8]
        } else {
            Seq::<u8>::empty()
        }) + spec_ser_field(fs[k]));
    }
}

/// The whole field image splits at any index: the image of the first `k`
/// fields, then the image of the rest.
pub proof fn lemma_fields_split(fs: Seq<(Seq<u8>, FieldValueModel)>, k: int)
    requires
        0 <= k <= fs.len(),
    ensures
        spec_ser_fields_from(fs, 0) == spec_ser_fields_from(fs.take(k), 0)
            + spec_ser_fields_from(fs, k),
    decreases k,
{
    if k == 0 {
        assert(spec_ser_fields_from(fs.take(0), 0) =~= Seq::<u8>::empty());
        assert(spec_ser_fields_from(fs, 0) =~= spec_ser_fields_from(fs.take(0), 0)
            + spec_ser_fields_from(fs, 0));
    } else {
        lemma_fields_split(fs, k - 1);
        lemma_fields_append(fs, k - 1, 0);
        assert(spec_ser_fields_from(fs, k - 1) == (if k - 1 > 0 {
            seq![44u8]
        } else {
            Seq::<u8>::empty()
        }) + spec_ser_field(fs[k - 1]) + spec_ser_fields_from(fs, k));
        assert(spec_ser_fields_from(fs, 0) =~= spec_ser_fields_from(fs.take(k), 0)
            + spec_ser_fields_from(fs, k));
    }
}

/// A region of a region of `s` is the matching region of `s`.
pub proof fn lemma_subrange_chunk(s: Seq<u8>, a: int, b: int, c: int, d: int)
    requires
        0 <= a <= c <= d <= b <= s.len(),
    ensures
        s.subrange(c, d) == s.subrange(a, b).subrange(c - a, d - a),
{
    assert(s.subrange(c, d) =~= s.subrange(a, b).subrange(c - a, d - a));
}


/// Well-formed field lists: plain keys, well-formed values.
pub open spec fn fields_wf(fs: Seq<(Seq<u8>, FieldValueModel)>) -> bool {
    forall|q: int| 0 <= q < fs.len() ==> is_plain_text(#[trigger] fs[q].0) && fs[q].1.wf()
}

/// Two well-formed field-list images that start at the same place and each
/// run up to a closing brace are the same list.
#[verifier::rlimit(100)]
#[verifier::spinoff_prover]
pub proof fn lemma_fields_rest_unique(
    s: Seq<u8>,
    a: int,
    f1: Seq<(Seq<u8>, FieldValueModel)>,
    f2: Seq<(Seq<u8>, FieldValueModel)>,
    k: int,
)
    requires
        0 <= a,
        0 <= k <= f1.len(),
        k <= f2.len(),
        fields_wf(f1),
        fields_wf(f2),
        a + spec_ser_fields_from(f1, k).len() + 1 <= s.len(),
        s.subrange(a, a + spec_ser_fields_from(f1, k).len() + 1) == spec_ser_fields_from(f1, k)
            + seq![125u8],
        a + spec_ser_fields_from(f2, k).len() + 1 <= s.len(),
        s.subrange(a, a + spec_ser_fields_from(f2, k).len() + 1) == spec_ser_fields_from(f2, k)
            + seq![125u8],
    ensures
        f1.len() == f2.len(),
        forall|q: int| k <= q < f1.len() ==> f1[q] == f2[q],
        spec_ser_fields_from(f1, k) == spec_ser_fields_from(f2, k),
    decreases f1.len() - k,
{
    let r1 = spec_ser_fields_from(f1, k);
    let r2 = spec_ser_fields_from(f2, k);
    if k == f1.len() {
        assert(r1 =~= Seq::<u8>::empty());
        assert(s[a] == s.subrange(a, a + r1.len() + 1)[0]);
        assert(s[a] == 125);
        if k < f2.len() {
            assert(r2 == (if k > 0 {
                seq![44u8]
            } else {
                Seq::<u8>::empty()
            }) + spec_ser_field(f2[k]) + spec_ser_fields_from(f2, k + 1));
            assert(s[a] == s.subrange(a, a + r2.len() + 1)[0]);
            assert(r2[0] == (if k > 0 {
                44u8
            } else {
                34u8
            }));
            assert(false);
        }
        assert(r2 =~= Seq::<u8>::empty());
    } else if k == f2.len() {
        assert(r2 =~= Seq::<u8>::empty());
        assert(s[a] == s.subrange(a, a + r2.len() + 1)[0]);
        assert(s[a] == 125);
        assert(r1 == (if k > 0 {
            seq![44u8]
        } else {
            Seq::<u8>::empty()
        }) + spec_ser_field(f1[k]) + spec_ser_fields_from(f1, k + 1));
        assert(s[a] == s.subrange(a, a + r1.len() + 1)[0]);
        assert(r1[0] == (if k > 0 {
            44u8
        } else {
            34u8
        }));
        assert(false);
    } else {
        let c: int = if k > 0 {
            1
        } else {
            0
        };
        assert(r1 == (if k > 0 {
            seq![44u8]
        } else {
            Seq::<u8>::empty()
        }) + spec_ser_field(f1[k]) + spec_ser_fields_from(f1, k + 1));
        assert(r2 == (if k > 0 {
            seq![44u8]
        } else {
            Seq::<u8>::empty()
        }) + spec_ser_field(f2[k]) + spec_ser_fields_from(f2, k + 1));
        let t1 = f1[k].0;
        let t2 = f2[k].0;
        let b1 = a + c + t1.len() + 2 + 1;
        let b2 = a + c + t2.len() + 2 + 1;
        // key images
        lemma_subrange_chunk(s, a, a + r1.len() + 1, a + c, a + c + t1.len() + 2 as int);
        assert((r1 + seq![125u8]).subrange(c, c + t1.len() + 2 as int) =~= spec_ser_text(t1));
        assert(s.subrange(a + c, a + c + t1.len() + 2 as int) == spec_ser_text(t1));
        lemma_subrange_chunk(s, a, a + r2.len() + 1, a + c, a + c + t2.len() + 2 as int);
        assert((r2 + seq![125u8]).subrange(c, c + t2.len() + 2 as int) =~= spec_ser_text(t2));
        assert(s.subrange(a + c, a + c + t2.len() + 2 as int) == spec_ser_text(t2));
        lemma_text_prefix_unique(s, a + c, t1, t2);
        assert(t1 == t2);
        // value images and their followers
        let v1 = f1[k].1;
        let v2 = f2[k].1;
        let w1 = spec_ser_value(v1).len() as int;
        let w2 = spec_ser_value(v2).len() as int;
        lemma_subrange_chunk(s, a, a + r1.len() + 1, b1, b1 + w1);
        assert((r1 + seq![125u8]).subrange(b1 - a, b1 - a + w1) =~= spec_ser_value(v1));
        assert(s.subrange(b1, b1 + w1) == spec_ser_value(v1));
        lemma_subrange_chunk(s, a, a + r2.len() + 1, b2, b2 + w2);
        assert((r2 + seq![125u8]).subrange(b2 - a, b2 - a + w2) =~= spec_ser_value(v2));
        assert(s.subrange(b2, b2 + w2) == spec_ser_value(v2));
        if k + 1 < f1.len() {
            assert(spec_ser_fields_from(f1, k + 1) == seq![44u8] + spec_ser_field(f1[k + 1])
                + spec_ser_fields_from(f1, k + 2));
            assert(s[b1 + w1] == s.subrange(a, a + r1.len() + 1)[b1 + w1 - a]);
            assert(s[b1 + w1] == 44);
        } else {
            assert(spec_ser_fields_from(f1, k + 1) =~= Seq::<u8>::empty());
            assert(s[b1 + w1] == s.subrange(a, a + r1.len() + 1)[b1 + w1 - a]);
            assert(s[b1 + w1] == 125);
        }
        if k + 1 < f2.len() {
            assert(spec_ser_fields_from(f2, k + 1) == seq![44u8] + spec_ser_field(f2[k + 1])
                + spec_ser_fields_from(f2, k + 2));
            assert(s[b2 + w2] == s.subrange(a, a + r2.len() + 1)[b2 + w2 - a]);
            assert(s[b2 + w2] == 44);
        } else {
            assert(spec_ser_fields_from(f2, k + 1) =~= Seq::<u8>::empty());
            assert(s[b2 + w2] == s.subrange(a, a + r2.len() + 1)[b2 + w2 - a]);
            assert(s[b2 + w2] == 125);
        }
        assert(value_image_at(s, b1, v1));
        assert(value_image_at(s, b2, v2));
        assert(b1 == b2);
        lemma_value_prefix_unique(s, b1, v1, v2);
        assert(v1 == v2);
        assert(f1[k] == f2[k]);
        assert(spec_ser_field(f1[k]) == spec_ser_field(f2[k]));
        // recurse past this field
        let a2 = b1 + w1;
        lemma_subrange_chunk(
            s,
            a,
            a + r1.len() + 1,
            a2,
            a2 + spec_ser_fields_from(f1, k + 1).len() + 1,
        );
        assert((r1 + seq![125u8]).subrange(a2 - a, a2 - a + spec_ser_fields_from(f1, k + 1).len()
            + 1) =~= spec_ser_fields_from(f1, k + 1) + seq![125u8]);
        assert(s.subrange(a2, a2 + spec_ser_fields_from(f1, k + 1).len() + 1)
            == spec_ser_fields_from(f1, k + 1) + seq![125u8]);
        lemma_subrange_chunk(
            s,
            a,
            a + r2.len() + 1,
            a2,
            a2 + spec_ser_fields_from(f2, k + 1).len() + 1,
        );
        assert((r2 + seq![125u8]).subrange(a2 - a, a2 - a + spec_ser_fields_from(f2, k + 1).len()
            + 1) =~= spec_ser_fields_from(f2, k + 1) + seq![125u8]);
        assert(s.subrange(a2, a2 + spec_ser_fields_from(f2, k + 1).len() + 1)
            == spec_ser_fields_from(f2, k + 1) + seq![125u8]);
        lemma_fields_rest_unique(s, a2, f1, f2, k + 1);
        assert(r1 =~= r2);
    }
}

/// Two well-formed document images that start at the same place are the same
/// document.
pub proof fn lemma_doc_prefix_unique(s: Seq<u8>, i: int, d1: DocModel, d2: DocModel)
    requires
        doc_image_at(s, i, d1),
        doc_image_at(s, i, d2),
    ensures
        d1 == d2,
{
    let f1 = d1.fields;
    let f2 = d2.fields;
    let g1 = spec_ser_fields_from(f1, 0).len() as int;
    let g2 = spec_ser_fields_from(f2, 0).len() as int;
    assert(s.subrange(i, i + g1 + 2) == spec_ser_doc(d1));
    assert(s.subrange(i, i + g2 + 2) == spec_ser_doc(d2));
    lemma_subrange_chunk(s, i, i + g1 + 2, i + 1, i + 1 + g1 + 1);
    assert(spec_ser_doc(d1).subrange(1, 1 + g1 + 1) =~= spec_ser_fields_from(f1, 0)
        + seq![125u8]);
    assert(s.subrange(i + 1, i + 1 + g1 + 1) == spec_ser_fields_from(f1, 0) + seq![125u8]);
    lemma_subrange_chunk(s, i, i + g2 + 2, i + 1, i + 1 + g2 + 1);
    assert(spec_ser_doc(d2).subrange(1, 1 + g2 + 1) =~= spec_ser_fields_from(f2, 0)
        + seq![125u8]);
    assert(s.subrange(i + 1, i + 1 + g2 + 1) == spec_ser_fields_from(f2, 0) + seq![125u8]);
    lemma_fields_rest_unique(s, i + 1, f1, f2, 0);
    assert(f1 =~= f2);
    assert(d1 =~= d2);
}


/// Where field `k` of a document image sits: its key, colon, value, and the
/// byte after the value (a comma before another field, else the brace).
#[verifier::rlimit(100)]
#[verifier::spinoff_prover]
pub proof fn lemma_field_layout(buf: Seq<u8>, i: int, gd: DocModel, k: int, j: int)
    requires
        doc_image_at(buf, i, gd),
        0 <= k < gd.fields.len(),
        j == i + 1 + spec_ser_fields_from(gd.fields.take(k), 0).len() + (if k > 0 {
            1int
        } else {
            0int
        }),
    ensures
        j + gd.fields[k].0.len() + 3 + spec_ser_value(gd.fields[k].1).len() + 1 <= buf.len(),
        buf.subrange(j, j + gd.fields[k].0.len() + 2) == spec_ser_text(gd.fields[k].0),
        is_plain_text(gd.fields[k].0),
        buf[j + gd.fields[k].0.len() + 2] == 58,
        value_image_at(buf, j + gd.fields[k].0.len() + 3, gd.fields[k].1),
        buf[j + gd.fields[k].0.len() + 3 + spec_ser_value(gd.fields[k].1).len()] == (if k + 1
            < gd.fields.len() {
            44u8
        } else {
            125u8
        }),
        j + gd.fields[k].0.len() + 3 + spec_ser_value(gd.fields[k].1).len() == i + 1
            + spec_ser_fields_from(gd.fields.take(k + 1), 0).len(),
{
    let gfs = gd.fields;
    let gl = spec_ser_doc(gd).len() as int;
    let gf = spec_ser_fields_from(gfs, 0).len() as int;
    let t = gfs[k].0;
    let v = gfs[k].1;
    let vlen = spec_ser_value(v).len() as int;
    lemma_fields_split(gfs, k);
    assert(spec_ser_fields_from(gfs, k) == (if k > 0 {
        seq![44u8]
    } else {
        Seq::<u8>::empty()
    }) + spec_ser_field(gfs[k]) + spec_ser_fields_from(gfs, k + 1));
    assert(buf.subrange(i, i + gl) == spec_ser_doc(gd));
    lemma_subrange_chunk(buf, i, i + gl, i + 1, i + 1 + gf);
    assert(spec_ser_doc(gd).subrange(1, 1 + gf) =~= spec_ser_fields_from(gfs, 0));
    assert(buf.subrange(i + 1, i + 1 + gf) == spec_ser_fields_from(gfs, 0));
    lemma_subrange_chunk(buf, i + 1, i + 1 + gf, j, i + 1 + gf);
    assert(spec_ser_fields_from(gfs, 0).subrange(j - (i + 1), gf) =~= spec_ser_field(gfs[k])
        + spec_ser_fields_from(gfs, k + 1));
    assert(buf.subrange(j, i + 1 + gf) == spec_ser_field(gfs[k]) + spec_ser_fields_from(
        gfs,
        k + 1,
    ));
    assert(spec_ser_field(gfs[k]) == spec_ser_text(t) + seq![58u8] + spec_ser_value(v));
    lemma_subrange_chunk(buf, j, i + 1 + gf, j, j + t.len() + 2 as int);
    assert((spec_ser_field(gfs[k]) + spec_ser_fields_from(gfs, k + 1)).subrange(
        0,
        t.len() + 2 as int,
    ) =~= spec_ser_text(t));
    assert(buf.subrange(j, j + t.len() + 2 as int) == spec_ser_text(t));
    assert(buf[j + t.len() + 2] == buf.subrange(j, i + 1 + gf)[t.len() + 2 as int]);
    assert(buf[j + t.len() + 2] == 58);
    let jv = j + t.len() + 3;
    lemma_subrange_chunk(buf, j, i + 1 + gf, jv, jv + vlen);
    assert((spec_ser_field(gfs[k]) + spec_ser_fields_from(gfs, k + 1)).subrange(
        jv - j,
        jv - j + vlen,
    ) =~= spec_ser_value(v));
    assert(buf.subrange(jv, jv + vlen) == spec_ser_value(v));
    assert(jv + vlen - j == spec_ser_field(gfs[k]).len());
    if k + 1 < gfs.len() {
        assert(spec_ser_fields_from(gfs, k + 1) == seq![44u8] + spec_ser_field(gfs[k + 1])
            + spec_ser_fields_from(gfs, k + 2));
        assert(jv + vlen < i + 1 + gf);
        assert(buf[jv + vlen] == buf.subrange(j, i + 1 + gf)[jv + vlen - j]);
        assert(buf[jv + vlen] == 44);
    } else {
        assert(spec_ser_fields_from(gfs, k + 1) =~= Seq::<u8>::empty());
        assert(jv + vlen == i + 1 + gf);
        assert(buf[jv + vlen] == buf.subrange(i, i + gl)[1 + gf]);
        assert(buf.subrange(i, i + gl)[1 + gf] == spec_ser_doc(gd)[1 + gf]);
        assert(spec_ser_doc(gd)[1 + gf] == 125);
        assert(buf[jv + vlen] == 125);
    }
    assert(value_image_at(buf, jv, v)) by {
        assert(gd.wf());
        assert(v.wf());
        if v is Num {
            assert(buf[jv + vlen] == 44 || buf[jv + vlen] == 125);
            assert(!is_digit(buf[jv + vlen]));
        }
    }
    lemma_fields_append(gfs, k, 0);
    assert(spec_ser_fields_from(gfs.take(k + 1), 0).len() == spec_ser_fields_from(
        gfs.take(k),
        0,
    ).len() + (if k > 0 {
        1int
    } else {
        0int
    }) + spec_ser_field(gfs[k]).len());
}

/// The model the parsed field vector stands for.
pub open spec fn fields_model(fields: Seq<(Vec<u8>, FieldValue)>) -> Seq<(Seq<u8>, FieldValueModel)> {
    fields.map_values(|f: (Vec<u8>, FieldValue)| (f.0@, f.1@))
}

/// Parse a document at `i`. Sound: the consumed region is exactly the image
/// of the returned document. Complete: a well-formed document image at `i`
/// is always accepted, and is reconstructed exactly.
#[verifier::rlimit(100)]
#[verifier::spinoff_prover]
fn parse_doc(buf: &Vec<u8>, i: usize) -> (r: Option<(Doc, usize)>)
    requires
        i <= buf@.len(),
    ensures
        r matches Option::Some(p) ==> i < p.1 <= buf@.len() && p.0@.wf() && buf@.subrange(
            i as int,
            p.1 as int,
        ) == spec_ser_doc(p.0@) && p.1 == i + spec_ser_doc(p.0@).len(),
        forall|d: DocModel| doc_image_at(buf@, i as int, d) ==> r is Some,
        forall|d: DocModel|
            doc_image_at(buf@, i as int, d) ==> (r matches Option::Some(p) && p.0@ == d),
{
    let ghost hyp = exists|d: DocModel| doc_image_at(buf@, i as int, d);
    let ghost gd: DocModel = if hyp {
        choose|d: DocModel| doc_image_at(buf@, i as int, d)
    } else {
        DocModel { fields: Seq::empty() }
    };
    let ghost gfs = gd.fields;
    let ghost gl = spec_ser_doc(gd).len() as int;
    let ghost gf = spec_ser_fields_from(gfs, 0).len() as int;
    proof {
        if hyp {
            assert(doc_image_at(buf@, i as int, gd));
            assert(buf@[i as int] == spec_ser_doc(gd)[0]);
        }
    }
    if i >= buf.len() || *(&buf[i]) != 123u8 {
        proof {
            if hyp {
                assert(false);
            }
        }
        return Option::None;
    }
    let mut j: usize = i + 1;
    let mut fields: Vec<(Vec<u8>, FieldValue)> = Vec::new();
    if j >= buf.len() {
        proof {
            if hyp {
                assert(i + gl <= buf@.len());
                assert(gl >= 2);
                assert(false);
            }
        }
        return Option::None;
    }
    if *(&buf[j]) == 125u8 {
        // an empty document; a nonempty image would show a key quote here
        proof {
            if hyp {
                if gfs.len() > 0 {
                    lemma_fields_split(gfs, 0);
                    assert(spec_ser_fields_from(gfs, 0) == spec_ser_field(gfs[0])
                        + spec_ser_fields_from(gfs, 1));
                    assert(spec_ser_doc(gd)[1] == spec_ser_fields_from(gfs, 0)[0]);
                    assert(spec_ser_fields_from(gfs, 0)[0] == 34);
                    assert(buf@[j as int] == 34);
                    assert(false);
                }
                assert(gfs =~= Seq::<(Seq<u8>, FieldValueModel)>::empty());
            }
        }
        let d = Doc { fields };
        proof {
            assert(d@.fields =~= Seq::<(Seq<u8>, FieldValueModel)>::empty());
            assert(d@.wf());
            assert(spec_ser_fields_from(d@.fields, 0) =~= Seq::<u8>::empty());
            assert(buf@.subrange(i as int, j as int + 1) =~= spec_ser_doc(d@));
            assert(doc_image_at(buf@, i as int, d@));
            assert forall|dd: DocModel| doc_image_at(buf@, i as int, dd) implies d@ == dd by {
                lemma_doc_prefix_unique(buf@, i as int, dd, d@);
            }
        }
        return Option::Some((d, j + 1));
    }
    proof {
        if hyp && gfs.len() == 0 {
            assert(spec_ser_fields_from(gfs, 0) =~= Seq::<u8>::empty());
            assert(buf@[i as int + 1] == spec_ser_doc(gd)[1]);
            assert(spec_ser_doc(gd)[1] == 125);
            assert(false);
        }
    }
    loop
        invariant
            i < buf@.len(),
            buf@[i as int] == 123,
            i + 1 <= j <= buf@.len(),
            hyp == exists|d: DocModel| doc_image_at(buf@, i as int, d),
            hyp ==> doc_image_at(buf@, i as int, gd) && gd.fields == gfs && gl == spec_ser_doc(
                gd,
            ).len() && gf == spec_ser_fields_from(gfs, 0).len(),
            buf@.subrange(i as int + 1, j as int) == spec_ser_fields_from(
                fields_model(fields@),
                0,
            ) + (if fields@.len() > 0 {
                seq![44u8]
            } else {
                Seq::<u8>::empty()
            }),
            forall|q: int|
                0 <= q < fields_model(fields@).len() ==> is_plain_text(
                    #[trigger] fields_model(fields@)[q].0,
                ) && fields_model(fields@)[q].1.wf(),
            hyp ==> fields_model(fields@) == gfs.take(fields@.len() as int) && fields@.len()
                < gfs.len(),
        decreases buf@.len() - j,
    {
        let ghost k = fields@.len() as int;
        let ghost pm = fields_model(fields@);
        proof {
            assert(buf@.subrange(i as int + 1, j as int).len() == j - (i + 1));
            if hyp {
                assert(j == i + 1 + spec_ser_fields_from(gfs.take(k), 0).len() + (if k > 0 {
                    1int
                } else {
                    0int
                }));
                lemma_field_layout(buf@, i as int, gd, k, j as int);
            }
        }
        let key = match parse_text(buf, j) {
            Option::Some(p) => p,
            Option::None => {
                proof {
                    if hyp {
                        assert(false);
                    }
                }
                return Option::None;
            },
        };
        let j2 = key.1;
        let key = key.0;
        proof {
            if hyp {
                lemma_text_prefix_unique(buf@, j as int, key@, gfs[k].0);
                assert(key@ == gfs[k].0);
                assert(j2 == j + gfs[k].0.len() + 2);
                assert(buf@[j2 as int] == 58);
            }
        }
        if j2 >= buf.len() || *(&buf[j2]) != 58u8 {
            proof {
                if hyp {
                    assert(false);
                }
            }
            return Option::None;
        }
        let jv = j2 + 1;
        proof {
            if hyp {
                assert(jv == j + gfs[k].0.len() + 3);
                assert(value_image_at(buf@, jv as int, gfs[k].1));
            }
        }
        let val = match parse_value(buf, jv) {
            Option::Some(p) => p,
            Option::None => {
                proof {
                    if hyp {
                        assert(false);
                    }
                }
                return Option::None;
            },
        };
        let j3 = val.1;
        let val = val.0;
        proof {
            if hyp {
                assert(value_image_at(buf@, jv as int, val@));
                lemma_value_prefix_unique(buf@, jv as int, val@, gfs[k].1);
                assert(val@ == gfs[k].1);
                assert(j3 == jv + spec_ser_value(gfs[k].1).len());
            }
        }
        fields.push((key, val));
        proof {
            assert(fields_model(fields@) =~= pm.push((key@, val@)));
            lemma_fields_append(fields_model(fields@), k, 0);
            assert(fields_model(fields@).take(k) =~= pm);
            assert(fields_model(fields@).take(k + 1) =~= fields_model(fields@));
            assert(buf@.subrange(i as int + 1, j3 as int) =~= spec_ser_fields_from(
                fields_model(fields@),
                0,
            ));
            if hyp {
                assert(fields_model(fields@) =~= gfs.take(k + 1));
            }
            assert forall|q: int|
                0 <= q < fields_model(fields@).len() implies is_plain_text(
                #[trigger] fields_model(fields@)[q].0,
            ) && fields_model(fields@)[q].1.wf() by {
                if q < k {
                    assert(fields_model(fields@)[q] == pm[q]);
                } else {
                    assert(fields_model(fields@)[q] == (key@, val@));
                }
            }
        }
        if j3 >= buf.len() {
            proof {
                if hyp {
                    assert(false);
                }
            }
            return Option::None;
        }
        let sep = buf[j3];
        if sep == 125 {
            let d = Doc { fields };
            proof {
                assert(d@.fields =~= fields_model(fields@));
                assert(d@.wf());
                assert(buf@.subrange(i as int, j3 as int + 1) =~= spec_ser_doc(d@));
                assert(doc_image_at(buf@, i as int, d@));
                assert forall|dd: DocModel| doc_image_at(buf@, i as int, dd) implies d@ == dd by {
                    lemma_doc_prefix_unique(buf@, i as int, dd, d@);
                }
            }
            return Option::Some((d, j3 + 1));
        }
        if sep == 44 {
            j = j3 + 1;
            proof {
                if hyp {
                    if k + 1 == gfs.len() {
                        assert(buf@[j3 as int] == 125);
                        assert(false);
                    }
                }
                assert(buf@.subrange(i as int + 1, j as int) =~= spec_ser_fields_from(
                    fields_model(fields@),
                    0,
                ) + seq![44u8]);
            }
        } else {
            proof {
                if hyp {
                    if k + 1 < gfs.len() {
                        assert(buf@[j3 as int] == 44);
                    } else {
                        assert(buf@[j3 as int] == 125);
                    }
                    assert(false);
                }
            }
            return Option::None;
        }
    }
}

/// One byte sequence is the image of at most one well-formed message.
#[verifier::rlimit(100)]
#[verifier::spinoff_prover]
pub proof fn lemma_message_image_unique(s: Seq<u8>, m1: MessageModel, m2: MessageModel)
    requires
        m1.wf(),
        m2.wf(),
        s == spec_ser_message(m1),
        s == spec_ser_message(m2),
    ensures
        m1 == m2,
{
    // events are all eight bytes, so every segment of the two images starts
    // at the same place as soon as the earlier variable parts agree
    assert(s.subrange(9, 17) =~= spec_ser_event(m1.event));
    assert(s.subrange(9, 17) =~= spec_ser_event(m2.event));
    assert(spec_ser_event(m1.event)[1] == spec_ser_event(m2.event)[1]);
    match m1.event {
        Event::Insert => {
            assert(spec_ser_event(m1.event)[1] == 73);
        },
        Event::Update => {
            assert(spec_ser_event(m1.event)[1] == 85);
        },
        Event::Delete => {
            assert(spec_ser_event(m1.event)[1] == 68);
        },
    }
    match m2.event {
        Event::Insert => {
            assert(spec_ser_event(m2.event)[1] == 73);
        },
        Event::Update => {
            assert(spec_ser_event(m2.event)[1] == 85);
        },
        Event::Delete => {
            assert(spec_ser_event(m2.event)[1] == 68);
        },
    }
    assert(m1.event == m2.event);
    let d1 = m1.db.len() as int;
    let d2 = m2.db.len() as int;
    assert(s.subrange(23, 25 + d1) =~= spec_ser_text(m1.db));
    assert(s.subrange(23, 25 + d2) =~= spec_ser_text(m2.db));
    lemma_text_prefix_unique(s, 23, m1.db, m2.db);
    assert(m1.db == m2.db);
    let c1 = m1.coll.len() as int;
    let c2 = m2.coll.len() as int;
    assert(s.subrange(33 + d1, 35 + d1 + c1) =~= spec_ser_text(m1.coll));
    assert(s.subrange(33 + d1, 35 + d1 + c2) =~= spec_ser_text(m2.coll));
    lemma_text_prefix_unique(s, 33 + d1, m1.coll, m2.coll);
    assert(m1.coll == m2.coll);
    let a_id = 41 + d1 + c1;
    let id1 = spec_ser_doc(m1.id).len() as int;
    let id2 = spec_ser_doc(m2.id).len() as int;
    assert(s.subrange(a_id, a_id + id1) =~= spec_ser_doc(m1.id));
    assert(s.subrange(a_id, a_id + id2) =~= spec_ser_doc(m2.id));
    lemma_doc_prefix_unique(s, a_id, m1.id, m2.id);
    assert(m1.id == m2.id);
    let a_data = a_id + id1 + 8;
    let da1 = spec_ser_data(m1.data).len() as int;
    let da2 = spec_ser_data(m2.data).len() as int;
    assert(s.subrange(a_data, a_data + da1) =~= spec_ser_data(m1.data));
    assert(s.subrange(a_data, a_data + da2) =~= spec_ser_data(m2.data));
    match m1.data {
        Option::None => {
            assert(s[a_data] == lit_null()[0]);
            match m2.data {
                Option::None => {},
                Option::Some(doc2) => {
                    assert(s[a_data] == spec_ser_doc(doc2)[0]);
                    assert(false);
                },
            }
        },
        Option::Some(doc1) => {
            assert(s[a_data] == spec_ser_doc(doc1)[0]);
            match m2.data {
                Option::None => {
                    assert(s[a_data] == lit_null()[0]);
                    assert(false);
                },
                Option::Some(doc2) => {
                    lemma_doc_prefix_unique(s, a_data, doc1, doc2);
                },
            }
        },
    }
    assert(m1.data == m2.data);
    assert(m1 =~= m2);
}


/// Where each segment of a message image sits.
#[verifier::rlimit(100)]
#[verifier::spinoff_prover]
pub proof fn lemma_message_layout(s: Seq<u8>, m: MessageModel)
    requires
        m.wf(),
        s == spec_ser_message(m),
    ensures
        s.len() == 50 + m.db.len() + m.coll.len() + spec_ser_doc(m.id).len() + spec_ser_data(
            m.data,
        ).len(),
        lit_at(s, 0, lit_hdr_event()),
        lit_at(s, 9, spec_ser_event(m.event)),
        lit_at(s, 17, lit_sep_db()),
        s.subrange(23, 25 + m.db.len() as int) == spec_ser_text(m.db),
        lit_at(s, 25 + m.db.len() as int, lit_sep_coll()),
        s.subrange(33 + m.db.len() as int, 35 + m.db.len() + m.coll.len() as int) == spec_ser_text(m.coll),
        lit_at(s, 35 + m.db.len() + m.coll.len() as int, lit_sep_id()),
        doc_image_at(s, 41 + m.db.len() + m.coll.len() as int, m.id),
        lit_at(s, 41 + m.db.len() + m.coll.len() + spec_ser_doc(m.id).len() as int, lit_sep_data()),
        m.data is None ==> lit_at(
            s,
            49 + m.db.len() + m.coll.len() + spec_ser_doc(m.id).len() as int,
            lit_null(),
        ),
        m.data matches Option::Some(dd) ==> doc_image_at(
            s,
            49 + m.db.len() + m.coll.len() + spec_ser_doc(m.id).len() as int,
            dd,
        ),
        s[s.len() - 1] == 125,
{
    let d = m.db.len() as int;
    let c = m.coll.len() as int;
    let idl = spec_ser_doc(m.id).len() as int;
    let dal = spec_ser_data(m.data).len() as int;
    assert(s.subrange(0, 9) =~= lit_hdr_event());
    assert(s.subrange(9, 17) =~= spec_ser_event(m.event));
    assert(s.subrange(17, 23) =~= lit_sep_db());
    assert(s.subrange(23, 25 + d) =~= spec_ser_text(m.db));
    assert(s.subrange(25 + d, 33 + d) =~= lit_sep_coll());
    assert(s.subrange(33 + d, 35 + d + c) =~= spec_ser_text(m.coll));
    assert(s.subrange(35 + d + c, 41 + d + c) =~= lit_sep_id());
    assert(s.subrange(41 + d + c, 41 + d + c + idl) =~= spec_ser_doc(m.id));
    assert(s.subrange(41 + d + c + idl, 49 + d + c + idl) =~= lit_sep_data());
    assert(s.subrange(49 + d + c + idl, 49 + d + c + idl + dal) =~= spec_ser_data(m.data));
    assert(s[49 + d + c + idl + dal] == 125);
}

/// A byte sequence made of exactly a message's segments is that message's
/// image.
#[verifier::rlimit(100)]
#[verifier::spinoff_prover]
pub proof fn lemma_message_assemble(s: Seq<u8>, m: MessageModel, j4: int, j6: int, j8: int, j10: int)
    requires
        s.len() == j10 + 1,
        j4 == 25 + m.db.len(),
        j6 == j4 + 10 + m.coll.len(),
        j8 == j6 + 6 + spec_ser_doc(m.id).len(),
        j10 == j8 + 8 + spec_ser_data(m.data).len(),
        s.subrange(0, 9) == lit_hdr_event(),
        s.subrange(9, 17) == spec_ser_event(m.event),
        s.subrange(17, 23) == lit_sep_db(),
        s.subrange(23, j4) == spec_ser_text(m.db),
        s.subrange(j4, j4 + 8) == lit_sep_coll(),
        s.subrange(j4 + 8, j6) == spec_ser_text(m.coll),
        s.subrange(j6, j6 + 6) == lit_sep_id(),
        s.subrange(j6 + 6, j8) == spec_ser_doc(m.id),
        s.subrange(j8, j8 + 8) == lit_sep_data(),
        s.subrange(j8 + 8, j10) == spec_ser_data(m.data),
        s[j10] == 125,
    ensures
        s == spec_ser_message(m),
{
    assert(s =~= spec_ser_message(m));
}

/// Parse one wire JSON value back into a message.
///
/// Round trip: for every well-formed message `m`, parsing the exact wire
/// image of `m` succeeds and yields a message equivalent to `m` — same event
/// kind, namespace, key and document. And whatever this parser accepts
/// serializes back to exactly the input bytes.
#[verifier::rlimit(100)]
#[verifier::spinoff_prover]
pub fn parse_message(buf: &Vec<u8>) -> (r: Option<Message>)
    ensures
        r matches Option::Some(pm) ==> pm.wf() && buf@ == spec_ser_message(pm@),
        forall|m: MessageModel|
            m.wf() && buf@ == spec_ser_message(m) ==> (r matches Option::Some(pm) && pm@ == m),
{
    let ghost hyp = exists|m: MessageModel| m.wf() && buf@ == spec_ser_message(m);
    let ghost gm: MessageModel = choose|m: MessageModel| m.wf() && buf@ == spec_ser_message(m);
    proof {
        if hyp {
            assert(gm.wf() && buf@ == spec_ser_message(gm));
            lemma_message_layout(buf@, gm);
        }
    }
    let mut l_hdr: Vec<u8> = Vec::new();
    hdr_event_into(&mut l_hdr);
    let j1 = match eat_lit(buf, 0, &l_hdr) {
        Option::Some(j) => j,
        Option::None => {
            proof {
                if hyp {
                    assert(false);
                }
            }
            return Option::None;
        },
    };
    let mut l_ins: Vec<u8> = Vec::new();
    event_into(&mut l_ins, Event::Insert);
    let mut l_upd: Vec<u8> = Vec::new();
    event_into(&mut l_upd, Event::Update);
    let mut l_del: Vec<u8> = Vec::new();
    event_into(&mut l_del, Event::Delete);
    let (event, j2) = match eat_lit(buf, j1, &l_ins) {
        Option::Some(j) => (Event::Insert, j),
        Option::None => match eat_lit(buf, j1, &l_upd) {
            Option::Some(j) => (Event::Update, j),
            Option::None => match eat_lit(buf, j1, &l_del) {
                Option::Some(j) => (Event::Delete, j),
                Option::None => {
                    proof {
                        if hyp {
                            assert(false);
                        }
                    }
                    return Option::None;
                },
            },
        },
    };
    let mut l_sdb: Vec<u8> = Vec::new();
    sep_db_into(&mut l_sdb);
    let j3 = match eat_lit(buf, j2, &l_sdb) {
        Option::Some(j) => j,
        Option::None => {
            proof {
                if hyp {
                    assert(false);
                }
            }
            return Option::None;
        },
    };
    let (db, j4) = match parse_text(buf, j3) {
        Option::Some(p) => p,
        Option::None => {
            proof {
                if hyp {
                    assert(false);
                }
            }
            return Option::None;
        },
    };
    proof {
        if hyp {
            lemma_text_prefix_unique(buf@, 23, db@, gm.db);
            assert(db@ == gm.db);
            assert(j4 == 25 + gm.db.len());
        }
    }
    let mut l_scoll: Vec<u8> = Vec::new();
    sep_coll_into(&mut l_scoll);
    let j5 = match eat_lit(buf, j4, &l_scoll) {
        Option::Some(j) => j,
        Option::None => {
            proof {
                if hyp {
                    assert(false);
                }
            }
            return Option::None;
        },
    };
    let (coll, j6) = match parse_text(buf, j5) {
        Option::Some(p) => p,
        Option::None => {
            proof {
                if hyp {
                    assert(false);
                }
            }
            return Option::None;
        },
    };
    proof {
        if hyp {
            lemma_text_prefix_unique(buf@, j5 as int, coll@, gm.coll);
            assert(coll@ == gm.coll);
            assert(j6 == 35 + gm.db.len() + gm.coll.len());
        }
    }
    let mut l_sid: Vec<u8> = Vec::new();
    sep_id_into(&mut l_sid);
    let j7 = match eat_lit(buf, j6, &l_sid) {
        Option::Some(j) => j,
        Option::None => {
            proof {
                if hyp {
                    assert(false);
                }
            }
            return Option::None;
        },
    };
    let (id, j8) = match parse_doc(buf, j7) {
        Option::Some(p) => p,
        Option::None => {
            proof {
                if hyp {
                    assert(false);
                }
            }
            return Option::None;
        },
    };
    proof {
        if hyp {
            assert(id@ == gm.id);
            assert(j8 == j7 + spec_ser_doc(gm.id).len());
        }
    }
    let mut l_sdata: Vec<u8> = Vec::new();
    sep_data_into(&mut l_sdata);
    let j9 = match eat_lit(buf, j8, &l_sdata) {
        Option::Some(j) => j,
        Option::None => {
            proof {
                if hyp {
                    assert(false);
                }
            }
            return Option::None;
        },
    };
    let mut l_null: Vec<u8> = Vec::new();
    null_into(&mut l_null);
    let (data, j10): (Option<Doc>, usize) = if j9 < buf.len() && *(&buf[j9]) == 110u8 {
        match eat_lit(buf, j9, &l_null) {
            Option::Some(j) => (Option::None, j),
            Option::None => {
                proof {
                    if hyp {
                        if gm.data is Some {
                            assert(buf@[j9 as int] == spec_ser_doc(gm.data.unwrap())[0]);
                        }
                        assert(false);
                    }
                }
                return Option::None;
            },
        }
    } else {
        proof {
            if hyp {
                if gm.data is None {
                    assert(buf@[j9 as int] == lit_null()[0]);
                    assert(false);
                }
                assert(doc_image_at(buf@, j9 as int, gm.data.unwrap()));
            }
        }
        match parse_doc(buf, j9) {
            Option::Some(p) => (Option::Some(p.0), p.1),
            Option::None => {
                proof {
                    if hyp {
                        assert(false);
                    }
                }
                return Option::None;
            },
        }
    };
    proof {
        if hyp {
            assert(crate::mapper::opt_doc_model(data) == gm.data);
            assert(j10 == j9 + spec_ser_data(gm.data).len());
        }
    }
    if j10 >= buf.len() || *(&buf[j10]) != 125u8 || j10 + 1 != buf.len() {
        proof {
            if hyp {
                assert(j10 + 1 == buf@.len());
                assert(false);
            }
        }
        return Option::None;
    }
    // shape checks the wire format demands of a message
    if db.len() == 0 || coll.len() == 0 {
        proof {
            if hyp {
                assert(false);
            }
        }
        return Option::None;
    }
    let is_delete = match event {
        Event::Delete => true,
        _ => false,
    };
    if is_delete != data.is_none() {
        proof {
            if hyp {
                assert(gm.event == Event::Delete <==> gm.data is None);
                assert(false);
            }
        }
        return Option::None;
    }
    let pm = Message { event, db, coll, id, data };
    proof {
        assert(pm.wf());
        lemma_message_assemble(buf@, pm@, j4 as int, j6 as int, j8 as int, j10 as int);
        assert forall|m: MessageModel|
            m.wf() && buf@ == spec_ser_message(m) implies pm@ == m by {
            lemma_message_image_unique(buf@, m, pm@);
        }
    }
    Option::Some(pm)
}

} // verus!
