//! Decoder and encoder for the binary key-value format of the user
//! shortcuts file.
//!
//! A document is a sequence of entries inside an implicit root object,
//! terminated by a single end byte. Each entry begins with a one-byte type
//! tag: a nested object (its key, then entries, then an end byte), a string
//! value (its key, then a null-terminated value), or a 32-bit little-endian
//! integer value (its key, then four raw bytes). Any other tag, or a value or
//! terminator missing before the stream ends, is a decode error carrying the
//! byte offset; malformed input never aborts. Objects preserve entry order.

use vstd::prelude::*;

verus! {

/// One node of a decoded binary document: a byte-string leaf, an integer
/// leaf, or an ordered object of named children.
#[derive(Debug, PartialEq)]
pub enum BNode {
    Str(Vec<u8>),
    Int(u32),
    Obj(Vec<(Vec<u8>, BNode)>),
}

/// A decode failure, carrying the byte offset at which the input was
/// rejected or found missing.
#[derive(Debug, Clone, PartialEq, Eq, Structural)]
pub struct DecodeError {
    pub offset: usize,
}

/// The mathematical shadow of a decoded node.
pub enum BVal {
    Str(Seq<u8>),
    Int(u32),
    Obj(Seq<(Seq<u8>, BVal)>),
}

/// The shadow of one node.
pub open spec fn bval_of(n: BNode) -> BVal
    decreases n,
{
    match n {
        BNode::Str(v) => BVal::Str(v@),
        BNode::Int(x) => BVal::Int(x),
        BNode::Obj(es) => BVal::Obj(bvals_of(es@)),
    }
}

/// The shadow of a sequence of entries.
pub open spec fn bvals_of(es: Seq<(Vec<u8>, BNode)>) -> Seq<(Seq<u8>, BVal)>
    decreases es,
{
    if es.len() == 0 {
        Seq::empty()
    } else {
        bvals_of(es.drop_last()).push((es.last().0@, bval_of(es.last().1)))
    }
}

/// The outcome of parsing entries at an offset: the entries with the offset
/// just past their terminator, or the offset of the failure.
pub enum SpecParse {
    Parsed(Seq<(Seq<u8>, BVal)>, int),
    Fail(int),
}

/// Reading a null-terminated byte string at `i`: the bytes before the first
/// null, and the offset just past it; nothing when the input ends first.
pub open spec fn sd_key(b: Seq<u8>, i: int) -> Option<(Seq<u8>, int)>
    decreases b.len() - i,
{
    if i < 0 || i >= b.len() {
        None
    } else if b[i] == 0 {
        Some((Seq::empty(), i + 1))
    } else {
        match sd_key(b, i + 1) {
            Some(p) => Some((seq![b[i]] + p.0, p.1)),
            None => None,
        }
    }
}

/// The little-endian recomposition of four bytes.
pub open spec fn le32_val(b0: u8, b1: u8, b2: u8, b3: u8) -> u32 {
    (b0 as int + b1 as int * 0x100 + b2 as int * 0x10000 + b3 as int * 0x1000000) as u32
}

/// The four little-endian bytes of a 32-bit integer.
pub open spec fn le32_bytes(x: u32) -> Seq<u8> {
    seq![
        (x as int % 0x100) as u8,
        (x as int / 0x100 % 0x100) as u8,
        (x as int / 0x10000 % 0x100) as u8,
        (x as int / 0x1000000 % 0x100) as u8,
    ]
}

/// Parsing entries at `i` up to and including their end byte.
pub open spec fn sd_entries(b: Seq<u8>, i: int) -> SpecParse
    decreases b.len() - i, 0int,
{
    if i < 0 || i >= b.len() {
        SpecParse::Fail(if i < 0 {
            0
        } else {
            i
        })
    } else if b[i] == 8 {
        SpecParse::Parsed(Seq::empty(), i + 1)
    } else if b[i] == 0 || b[i] == 1 || b[i] == 2 {
        match sd_key(b, i + 1) {
            None => SpecParse::Fail(b.len() as int),
            Some(kp) => if i < kp.1 && kp.1 <= b.len() {
                sd_value(b, i, kp.0, kp.1)
            } else {
                SpecParse::Fail(i)
            },
        }
    } else {
        SpecParse::Fail(i)
    }
}

/// Parsing the value of one entry whose tag sits at `i` and whose key ends
/// just before `j`, then the entries after it.
pub open spec fn sd_value(b: Seq<u8>, i: int, k: Seq<u8>, j: int) -> SpecParse
    decreases b.len() - j, 1int,
{
    if !(0 <= i < j <= b.len()) {
        SpecParse::Fail(i)
    } else if b[i] == 1 {
        match sd_key(b, j) {
            None => SpecParse::Fail(b.len() as int),
            Some(vp) => if j < vp.1 && vp.1 <= b.len() {
                sd_rest(b, k, BVal::Str(vp.0), vp.1)
            } else {
                SpecParse::Fail(i)
            },
        }
    } else if b[i] == 2 {
        if j + 4 <= b.len() {
            sd_rest(b, k, BVal::Int(le32_val(b[j], b[j + 1], b[j + 2], b[j + 3])), j + 4)
        } else {
            SpecParse::Fail(b.len() as int)
        }
    } else {
        match sd_entries(b, j) {
            SpecParse::Parsed(child, j2) => if j < j2 && j2 <= b.len() {
                sd_rest(b, k, BVal::Obj(child), j2)
            } else {
                SpecParse::Fail(i)
            },
            SpecParse::Fail(o) => SpecParse::Fail(o),
        }
    }
}

/// Parsing the entries after one completed entry and placing it in front.
pub open spec fn sd_rest(b: Seq<u8>, k: Seq<u8>, v: BVal, j: int) -> SpecParse
    decreases b.len() - j, 1int,
{
    match sd_entries(b, j) {
        SpecParse::Parsed(rest, end) => SpecParse::Parsed(seq![(k, v)] + rest, end),
        SpecParse::Fail(o) => SpecParse::Fail(o),
    }
}

/// `sd_key` moves forward and stays in bounds.
proof fn lemma_sd_key_bounds(b: Seq<u8>, i: int)
    requires
        sd_key(b, i) is Some,
    ensures
        i < sd_key(b, i)->Some_0.1 <= b.len(),
    decreases b.len() - i,
{
    if 0 <= i < b.len() && b[i] != 0 {
        lemma_sd_key_bounds(b, i + 1);
    }
}

/// `sd_entries` consumes at least its end byte and stays in bounds.
proof fn lemma_sd_entries_bounds(b: Seq<u8>, i: int)
    requires
        sd_entries(b, i) is Parsed,
    ensures
        i < sd_entries(b, i)->Parsed_1 <= b.len(),
    decreases b.len() - i, 2int,
{
    if 0 <= i < b.len() && b[i] != 8 && (b[i] == 0 || b[i] == 1 || b[i] == 2) {
        if sd_key(b, i + 1) is Some {
            lemma_sd_key_bounds(b, i + 1);
            let kp = sd_key(b, i + 1)->Some_0;
            if i < kp.1 && kp.1 <= b.len() {
                lemma_sd_value_bounds(b, i, kp.0, kp.1);
            }
        }
    }
}

/// `sd_value` consumes past the key's end and stays in bounds.
proof fn lemma_sd_value_bounds(b: Seq<u8>, i: int, k: Seq<u8>, j: int)
    requires
        sd_value(b, i, k, j) is Parsed,
    ensures
        j < sd_value(b, i, k, j)->Parsed_1 <= b.len(),
    decreases b.len() - j, 3int,
{
    if 0 <= i < j <= b.len() {
        if b[i] == 1 {
            if sd_key(b, j) is Some {
                lemma_sd_key_bounds(b, j);
                let vp = sd_key(b, j)->Some_0;
                if j < vp.1 && vp.1 <= b.len() {
                    lemma_sd_rest_bounds(b, k, BVal::Str(vp.0), vp.1);
                }
            }
        } else if b[i] == 2 {
            if j + 4 <= b.len() {
                lemma_sd_rest_bounds(
                    b,
                    k,
                    BVal::Int(le32_val(b[j], b[j + 1], b[j + 2], b[j + 3])),
                    j + 4,
                );
            }
        } else {
            if sd_entries(b, j) is Parsed {
                lemma_sd_entries_bounds(b, j);
                let child = sd_entries(b, j)->Parsed_0;
                let j2 = sd_entries(b, j)->Parsed_1;
                if j < j2 && j2 <= b.len() {
                    lemma_sd_rest_bounds(b, k, BVal::Obj(child), j2);
                }
            }
        }
    }
}

/// `sd_rest` moves forward and stays in bounds.
proof fn lemma_sd_rest_bounds(b: Seq<u8>, k: Seq<u8>, v: BVal, j: int)
    requires
        sd_rest(b, k, v, j) is Parsed,
    ensures
        j < sd_rest(b, k, v, j)->Parsed_1 <= b.len(),
    decreases b.len() - j, 3int,
{
    if sd_entries(b, j) is Parsed {
        lemma_sd_entries_bounds(b, j);
    }
}

/// Reading a key inspects only the bytes it consumes: another buffer with
/// the same bytes there reads the same key.
proof fn lemma_sd_key_local(b: Seq<u8>, b2: Seq<u8>, i: int)
    requires
        0 <= i,
        sd_key(b, i) is Some,
        sd_key(b, i)->Some_0.1 <= b2.len(),
        forall|m: int| i <= m < sd_key(b, i)->Some_0.1 ==> b2[m] == b[m],
    ensures
        sd_key(b2, i) == sd_key(b, i),
    decreases b.len() - i,
{
    lemma_sd_key_bounds(b, i);
    if b[i] == 0 {
    } else {
        lemma_sd_key_bounds(b, i + 1);
        lemma_sd_key_local(b, b2, i + 1);
    }
}

/// Parsing entries inspects only the bytes it consumes.
proof fn lemma_sd_entries_local(b: Seq<u8>, b2: Seq<u8>, i: int)
    requires
        0 <= i,
        sd_entries(b, i) is Parsed,
        sd_entries(b, i)->Parsed_1 <= b2.len(),
        forall|m: int| i <= m < sd_entries(b, i)->Parsed_1 ==> b2[m] == b[m],
    ensures
        sd_entries(b2, i) == sd_entries(b, i),
    decreases b.len() - i, 2int,
{
    lemma_sd_entries_bounds(b, i);
    let end = sd_entries(b, i)->Parsed_1;
    if b[i] == 8 {
    } else {
        let kp = sd_key(b, i + 1)->Some_0;
        lemma_sd_key_bounds(b, i + 1);
        lemma_sd_value_bounds(b, i, kp.0, kp.1);
        lemma_sd_key_local(b, b2, i + 1);
        lemma_sd_value_local(b, b2, i, kp.0, kp.1);
    }
}

/// Parsing a value inspects only the bytes it consumes.
proof fn lemma_sd_value_local(b: Seq<u8>, b2: Seq<u8>, i: int, k: Seq<u8>, j: int)
    requires
        sd_value(b, i, k, j) is Parsed,
        sd_value(b, i, k, j)->Parsed_1 <= b2.len(),
        forall|m: int| i <= m < sd_value(b, i, k, j)->Parsed_1 ==> b2[m] == b[m],
    ensures
        sd_value(b2, i, k, j) == sd_value(b, i, k, j),
    decreases b.len() - j, 3int,
{
    lemma_sd_value_bounds(b, i, k, j);
    let end = sd_value(b, i, k, j)->Parsed_1;
    if b[i] == 1 {
        let vp = sd_key(b, j)->Some_0;
        lemma_sd_key_bounds(b, j);
        lemma_sd_rest_bounds(b, k, BVal::Str(vp.0), vp.1);
        lemma_sd_key_local(b, b2, j);
        lemma_sd_rest_local(b, b2, k, BVal::Str(vp.0), vp.1);
    } else if b[i] == 2 {
        lemma_sd_rest_bounds(b, k, BVal::Int(le32_val(b[j], b[j + 1], b[j + 2], b[j + 3])), j + 4);
        lemma_sd_rest_local(b, b2, k, BVal::Int(le32_val(b[j], b[j + 1], b[j + 2], b[j + 3])), j + 4);
    } else {
        let child = sd_entries(b, j)->Parsed_0;
        let j2 = sd_entries(b, j)->Parsed_1;
        lemma_sd_entries_bounds(b, j);
        lemma_sd_rest_bounds(b, k, BVal::Obj(child), j2);
        lemma_sd_entries_local(b, b2, j);
        lemma_sd_rest_local(b, b2, k, BVal::Obj(child), j2);
    }
}

/// Parsing the following entries inspects only the bytes it consumes.
proof fn lemma_sd_rest_local(b: Seq<u8>, b2: Seq<u8>, k: Seq<u8>, v: BVal, j: int)
    requires
        0 <= j,
        sd_rest(b, k, v, j) is Parsed,
        sd_rest(b, k, v, j)->Parsed_1 <= b2.len(),
        forall|m: int| j <= m < sd_rest(b, k, v, j)->Parsed_1 ==> b2[m] == b[m],
    ensures
        sd_rest(b2, k, v, j) == sd_rest(b, k, v, j),
    decreases b.len() - j, 3int,
{
    lemma_sd_entries_bounds(b, j);
    lemma_sd_entries_local(b, b2, j);
}

/// What decoding a whole document returns: the root entries when the input
/// is exactly one terminated entry sequence, else the offset of the failure
/// or of the first trailing byte.
pub open spec fn sd_doc(b: Seq<u8>) -> SpecParse {
    match sd_entries(b, 0) {
        SpecParse::Parsed(es, end) => if end == b.len() {
            SpecParse::Parsed(es, end)
        } else {
            SpecParse::Fail(end)
        },
        SpecParse::Fail(o) => SpecParse::Fail(o),
    }
}

/// Reads the null-terminated byte string at `start`.
fn parse_key(bytes: &Vec<u8>, start: usize) -> (r: Result<(Vec<u8>, usize), DecodeError>)
    requires
        start <= bytes@.len(),
    ensures
        match r {
            Ok(p) => sd_key(bytes@, start as int) == Some((p.0@, p.1 as int)) && start < p.1
                <= bytes@.len(),
            Err(e) => sd_key(bytes@, start as int) is None && e.offset == bytes@.len(),
        },
{
    let len = bytes.len();
    let mut cur: usize = start;
    let mut acc: Vec<u8> = Vec::new();
    assert(acc@ =~= Seq::<u8>::empty());
    loop
        invariant
            start <= cur <= len,
            len == bytes@.len(),
            sd_key(bytes@, start as int) == (match sd_key(bytes@, cur as int) {
                Some(p) => Some((acc@ + p.0, p.1)),
                None => None::<(Seq<u8>, int)>,
            }),
        decreases len - cur,
    {
        if cur >= len {
            return Err(DecodeError { offset: len });
        }
        let byte = bytes[cur];
        if byte == 0 {
            proof {
                assert(sd_key(bytes@, cur as int) == Some((Seq::<u8>::empty(), cur + 1 as int)));
                assert(acc@ + Seq::<u8>::empty() =~= acc@);
            }
            return Ok((acc, cur + 1));
        }
        let ghost acc0 = acc@;
        acc.push(byte);
        proof {
            assert(acc@ =~= acc0 + seq![bytes@[cur as int]]);
            match sd_key(bytes@, cur + 1 as int) {
                Some(p) => {
                    assert(sd_key(bytes@, cur as int) == Some(
                        (seq![bytes@[cur as int]] + p.0, p.1),
                    ));
                    assert(acc0 + (seq![bytes@[cur as int]] + p.0) =~= acc@ + p.0);
                },
                None => {
                    assert(sd_key(bytes@, cur as int) is None);
                },
            }
        }
        cur = cur + 1;
    }
}

/// Decodes the entry sequence at `start`, up to and including its end byte.
#[verifier::loop_isolation(false)]
fn parse_entries(bytes: &Vec<u8>, start: usize) -> (r: Result<
    (Vec<(Vec<u8>, BNode)>, usize),
    DecodeError,
>)
    requires
        start <= bytes@.len(),
    ensures
        match r {
            Ok(p) => sd_entries(bytes@, start as int) == SpecParse::Parsed(
                bvals_of(p.0@),
                p.1 as int,
            ) && start < p.1 <= bytes@.len(),
            Err(e) => sd_entries(bytes@, start as int) == SpecParse::Fail(e.offset as int)
                && e.offset <= bytes@.len(),
        },
    decreases bytes@.len() - start,
{
    let len = bytes.len();
    let mut cur: usize = start;
    let mut acc: Vec<(Vec<u8>, BNode)> = Vec::new();
    assert(bvals_of(acc@) =~= Seq::<(Seq<u8>, BVal)>::empty());
    loop
        invariant
            start <= cur <= len,
            sd_entries(bytes@, start as int) == (match sd_entries(bytes@, cur as int) {
                SpecParse::Parsed(rest, end) => SpecParse::Parsed(bvals_of(acc@) + rest, end),
                SpecParse::Fail(o) => SpecParse::Fail(o),
            }),
        decreases len - cur,
    {
        if cur >= len {
            return Err(DecodeError { offset: cur });
        }
        let tag = bytes[cur];
        if tag == 8 {
            proof {
                assert(bvals_of(acc@) + Seq::<(Seq<u8>, BVal)>::empty() =~= bvals_of(acc@));
            }
            return Ok((acc, cur + 1));
        }
        if tag > 2 {
            return Err(DecodeError { offset: cur });
        }
        let (k, j) = match parse_key(bytes, cur + 1) {
            Ok(p) => p,
            Err(e) => {
                return Err(e);
            },
        };
        assert(sd_entries(bytes@, cur as int) == sd_value(bytes@, cur as int, k@, j as int));
        let (v, j2): (BNode, usize) = if tag == 1 {
            let (s, j2) = match parse_key(bytes, j) {
                Ok(p) => p,
                Err(e) => {
                    return Err(e);
                },
            };
            (BNode::Str(s), j2)
        } else if tag == 2 {
            if len - j < 4 {
                return Err(DecodeError { offset: len });
            }
            let x: u32 = bytes[j] as u32 + bytes[j + 1] as u32 * 0x100 + bytes[j + 2] as u32
                * 0x10000 + bytes[j + 3] as u32 * 0x1000000;
            proof {
                assert(x == le32_val(bytes@[j as int], bytes@[j + 1], bytes@[j + 2], bytes@[j + 3]));
            }
            (BNode::Int(x), j + 4)
        } else {
            let (child, j2) = match parse_entries(bytes, j) {
                Ok(p) => p,
                Err(e) => {
                    return Err(e);
                },
            };
            (BNode::Obj(child), j2)
        };
        assert(sd_value(bytes@, cur as int, k@, j as int) == sd_rest(
            bytes@,
            k@,
            bval_of(v),
            j2 as int,
        ));
        let ghost acc0 = acc@;
        acc.push((k, v));
        proof {
            assert(acc@.drop_last() =~= acc0);
            assert(bvals_of(acc@) =~= bvals_of(acc0).push((acc@.last().0@, bval_of(
                acc@.last().1,
            ))));
            match sd_entries(bytes@, j2 as int) {
                SpecParse::Parsed(rest, end) => {
                    assert(bvals_of(acc0) + (seq![(acc@.last().0@, bval_of(acc@.last().1))] + rest)
                        =~= bvals_of(acc@) + rest);
                },
                SpecParse::Fail(_) => {
                },
            }
        }
        cur = j2;
    }
}

/// Decodes a whole binary document into its root object. Malformed or
/// truncated input is a decode error carrying the byte offset at which the
/// input was rejected or found missing; decoding never aborts.
pub fn decode(bytes: &Vec<u8>) -> (r: Result<BNode, DecodeError>)
    ensures
        match r {
            Ok(n) => n matches BNode::Obj(es) && sd_doc(bytes@) == SpecParse::Parsed(
                bvals_of(es@),
                bytes@.len() as int,
            ),
            Err(e) => sd_doc(bytes@) == SpecParse::Fail(e.offset as int) && e.offset
                <= bytes@.len(),
        },
{
    match parse_entries(bytes, 0) {
        Ok(p) => {
            let (es, end) = p;
            if end == bytes.len() {
                Ok(BNode::Obj(es))
            } else {
                Err(DecodeError { offset: end })
            }
        },
        Err(e) => Err(e),
    }
}

/// The encoding of one entry: its tag, its null-terminated key, then its
/// value bytes.
pub open spec fn enc_entry(k: Seq<u8>, v: BVal) -> Seq<u8>
    decreases v,
{
    match v {
        BVal::Str(s) => seq![1u8] + k + seq![0u8] + s + seq![0u8],
        BVal::Int(x) => seq![2u8] + k + seq![0u8] + le32_bytes(x),
        BVal::Obj(es) => seq![0u8] + k + seq![0u8] + enc_entries(es) + seq![8u8],
    }
}

/// The encoding of a sequence of entries, in order, without a terminator.
pub open spec fn enc_entries(es: Seq<(Seq<u8>, BVal)>) -> Seq<u8>
    decreases es,
{
    if es.len() == 0 {
        Seq::empty()
    } else {
        enc_entry(es[0].0, es[0].1) + enc_entries(es.drop_first())
    }
}

/// The encoding of a whole document: its entries, then the end byte.
pub open spec fn enc_doc(es: Seq<(Seq<u8>, BVal)>) -> Seq<u8> {
    enc_entries(es) + seq![8u8]
}

/// No null byte: the encoding of keys and string values is unambiguous only
/// for such byte strings.
pub open spec fn wf_bytes(s: Seq<u8>) -> bool {
    forall|i: int| 0 <= i < s.len() ==> s[i] != 0
}

/// Is this value encodable so that decoding gives it back?
pub open spec fn wf_val(v: BVal) -> bool
    decreases v,
{
    match v {
        BVal::Str(s) => wf_bytes(s),
        BVal::Int(_) => true,
        BVal::Obj(es) => wf_entries(es),
    }
}

/// Are these entries encodable so that decoding gives them back?
pub open spec fn wf_entries(es: Seq<(Seq<u8>, BVal)>) -> bool
    decreases es,
{
    if es.len() == 0 {
        true
    } else {
        wf_bytes(es[0].0) && wf_val(es[0].1) && wf_entries(es.drop_first())
    }
}

impl BNode {
    /// The byte string this node holds, if it is a string leaf.
    pub fn as_bstr(&self) -> (r: Option<&Vec<u8>>)
        ensures
            match r {
                Some(s) => *self is Str && self->Str_0 == *s,
                None => !(*self is Str),
            },
    {
        match self {
            BNode::Str(s) => Some(s),
            _ => None,
        }
    }

    /// The integer this node holds, if it is an integer leaf.
    pub fn as_bint(&self) -> (r: Option<u32>)
        ensures
            match r {
                Some(x) => *self is Int && self->Int_0 == x,
                None => !(*self is Int),
            },
    {
        match self {
            BNode::Int(x) => Some(*x),
            _ => None,
        }
    }

    /// The children this node holds, if it is an object.
    pub fn as_bentries(&self) -> (r: Option<&Vec<(Vec<u8>, BNode)>>)
        ensures
            match r {
                Some(es) => *self is Obj && self->Obj_0 == *es,
                None => !(*self is Obj),
            },
    {
        match self {
            BNode::Obj(es) => Some(es),
            _ => None,
        }
    }
}

/// The first shadow entry named `key`.
pub open spec fn vlookup(es: Seq<(Seq<u8>, BVal)>, key: Seq<u8>) -> Option<BVal>
    decreases es.len(),
{
    if es.len() == 0 {
        None
    } else if es[0].0 == key {
        Some(es[0].1)
    } else {
        vlookup(es.drop_first(), key)
    }
}

proof fn lemma_vlookup_skip_step(es: Seq<(Seq<u8>, BVal)>, key: Seq<u8>, i: int)
    requires
        0 <= i < es.len(),
        es[i].0 != key,
    ensures
        vlookup(es.skip(i), key) == vlookup(es.skip(i + 1), key),
{
    assert(es.skip(i).drop_first() =~= es.skip(i + 1));
}

fn bytes_eq(a: &Vec<u8>, b: &Vec<u8>) -> (r: bool)
    ensures
        r == (a@ == b@),
{
    let n = a.len();
    if n != b.len() {
        return false;
    }
    let mut i: usize = 0;
    while i < n
        invariant
            n == a@.len() == b@.len(),
            0 <= i <= n,
            forall|j: int| 0 <= j < i ==> a@[j] == b@[j],
        decreases n - i,
    {
        if a[i] != b[i] {
            return false;
        }
        i = i + 1;
    }
    proof {
        assert(a@ =~= b@);
    }
    true
}

/// The first child named `key`, stated over the node's shadow.
#[verifier::loop_isolation(false)]
pub fn bget<'a>(es: &'a Vec<(Vec<u8>, BNode)>, key: &Vec<u8>) -> (r: Option<&'a BNode>)
    ensures
        match r {
            Some(n) => vlookup(bvals_of(es@), key@) == Some(bval_of(*n)),
            None => vlookup(bvals_of(es@), key@) is None,
        },
{
    proof {
        lemma_bvals_index(es@);
    }
    let ghost bes = bvals_of(es@);
    let n = es.len();
    assert(bes.skip(0) =~= bes);
    let mut i: usize = 0;
    while i < n
        invariant
            0 <= i <= n,
            vlookup(bes, key@) == vlookup(bes.skip(i as int), key@),
        decreases n - i,
    {
        if bytes_eq(&es[i].0, key) {
            proof {
                assert(bes.skip(i as int)[0] == bes[i as int]);
                assert(vlookup(bes.skip(i as int), key@) == Some(bes[i as int].1));
            }
            return Some(&es[i].1);
        }
        proof {
            assert(bes.skip(i as int)[0] == bes[i as int]);
            lemma_vlookup_skip_step(bes, key@, i as int);
        }
        i = i + 1;
    }
    assert(bes.skip(n as int) =~= Seq::<(Seq<u8>, BVal)>::empty());
    None
}

/// The shadow of entries is as long and pointwise matching.
pub proof fn lemma_bvals_index(es: Seq<(Vec<u8>, BNode)>)
    ensures
        bvals_of(es).len() == es.len(),
        forall|i: int|
            0 <= i < es.len() ==> #[trigger] bvals_of(es)[i] == (es[i].0@, bval_of(es[i].1)),
    decreases es,
{
    if es.len() > 0 {
        lemma_bvals_index(es.drop_last());
    }
}

proof fn lemma_enc_entries_snoc(es: Seq<(Seq<u8>, BVal)>, i: int)
    requires
        0 <= i < es.len(),
    ensures
        enc_entries(es.take(i + 1)) == enc_entries(es.take(i)) + enc_entry(es[i].0, es[i].1),
    decreases i,
{
    if i == 0 {
        assert(es.take(0) =~= Seq::<(Seq<u8>, BVal)>::empty());
        assert(es.take(1).drop_first() =~= Seq::<(Seq<u8>, BVal)>::empty());
        assert(es.take(1)[0] == es[0]);
        assert(enc_entries(es.take(1)) == enc_entry(es[0].0, es[0].1) + enc_entries(
            Seq::<(Seq<u8>, BVal)>::empty(),
        ));
        assert(enc_entry(es[0].0, es[0].1) + Seq::<u8>::empty() =~= Seq::<u8>::empty() + enc_entry(
            es[0].0,
            es[0].1,
        ));
    } else {
        lemma_enc_entries_snoc(es.drop_first(), i - 1);
        assert(es.take(i + 1).drop_first() =~= es.drop_first().take(i));
        assert(es.take(i).drop_first() =~= es.drop_first().take(i - 1));
        assert(es.take(i + 1)[0] == es[0]);
        assert(es.take(i)[0] == es[0]);
        assert(es.drop_first()[i - 1] == es[i]);
        assert(enc_entry(es.take(i + 1)[0].0, es.take(i + 1)[0].1) + enc_entries(
            es.drop_first().take(i - 1) + seq![es.drop_first()[i - 1]],
        ) =~= enc_entries(es.take(i)) + enc_entry(es[i].0, es[i].1)) by {
            assert(enc_entries(es.drop_first().take(i)) == enc_entries(es.drop_first().take(i - 1))
                + enc_entry(es[i].0, es[i].1));
            assert(es.drop_first().take(i - 1) + seq![es.drop_first()[i - 1]] =~= es.drop_first()
                .take(i));
            assert((enc_entry(es[0].0, es[0].1) + enc_entries(es.drop_first().take(i - 1)))
                + enc_entry(es[i].0, es[i].1) =~= enc_entry(es[0].0, es[0].1) + (enc_entries(
                es.drop_first().take(i - 1),
            ) + enc_entry(es[i].0, es[i].1)));
        }
        assert(es.drop_first().take(i - 1) + seq![es.drop_first()[i - 1]] =~= es.drop_first().take(
            i,
        ));
    }
}

/// Appends the encoding of one entry.
fn encode_entry_into(k: &Vec<u8>, v: &BNode, out: &mut Vec<u8>)
    ensures
        final(out)@ == old(out)@ + enc_entry(k@, bval_of(*v)),
    decreases *v,
{
    let ghost out0 = out@;
    match v {
        BNode::Str(s) => {
            out.push(1);
            out.extend_from_slice(k.as_slice());
            out.push(0);
            out.extend_from_slice(s.as_slice());
            out.push(0);
            proof {
                assert(out@ =~= out0 + (seq![1u8] + k@ + seq![0u8] + s@ + seq![0u8]));
            }
        },
        BNode::Int(x) => {
            out.push(2);
            out.extend_from_slice(k.as_slice());
            out.push(0);
            let x = *x;
            out.push((x % 0x100) as u8);
            out.push((x / 0x100 % 0x100) as u8);
            out.push((x / 0x10000 % 0x100) as u8);
            out.push((x / 0x1000000 % 0x100) as u8);
            proof {
                assert(out@ =~= out0 + (seq![2u8] + k@ + seq![0u8] + le32_bytes(x)));
            }
        },
        BNode::Obj(es) => {
            out.push(0);
            out.extend_from_slice(k.as_slice());
            out.push(0);
            let ghost mid = out@;
            encode_entries_into(es, out);
            out.push(8);
            proof {
                assert(out@ =~= out0 + (seq![0u8] + k@ + seq![0u8] + enc_entries(bvals_of(es@))
                    + seq![8u8]));
            }
        },
    }
}

/// Appends the encoding of a sequence of entries, without a terminator.
#[verifier::loop_isolation(false)]
fn encode_entries_into(es: &Vec<(Vec<u8>, BNode)>, out: &mut Vec<u8>)
    ensures
        final(out)@ == old(out)@ + enc_entries(bvals_of(es@)),
    decreases es@,
{
    proof {
        lemma_bvals_index(es@);
    }
    let n = es.len();
    assert(out@ =~= old(out)@ + enc_entries(bvals_of(es@).take(0))) by {
        assert(bvals_of(es@).take(0) =~= Seq::<(Seq<u8>, BVal)>::empty());
        assert(out@ =~= out@ + Seq::<u8>::empty());
    }
    let mut i: usize = 0;
    while i < n
        invariant
            0 <= i <= n,
            out@ == old(out)@ + enc_entries(bvals_of(es@).take(i as int)),
        decreases n - i,
    {
        proof {
            assert(decreases_to!(es@ => es@[i as int]));
        }
        encode_entry_into(&es[i].0, &es[i].1, out);
        proof {
            lemma_enc_entries_snoc(bvals_of(es@), i as int);
            assert((old(out)@ + enc_entries(bvals_of(es@).take(i as int))) + enc_entry(
                es@[i as int].0@,
                bval_of(es@[i as int].1),
            ) =~= old(out)@ + enc_entries(bvals_of(es@).take(i + 1)));
        }
        i = i + 1;
    }
    proof {
        assert(bvals_of(es@).take(n as int) =~= bvals_of(es@));
    }
}

/// Encodes an object node as a whole binary document. Only an object can be
/// a document root.
pub fn encode(root: &BNode) -> (r: Option<Vec<u8>>)
    ensures
        match r {
            Some(v) => root matches BNode::Obj(es) && v@ == enc_doc(bvals_of(es@)),
            None => !(*root is Obj),
        },
{
    match root {
        BNode::Obj(es) => {
            let mut out: Vec<u8> = Vec::new();
            encode_entries_into(es, &mut out);
            out.push(8);
            proof {
                assert(out@ =~= (Seq::<u8>::empty() + enc_entries(bvals_of(es@))) + seq![8u8]);
                assert(Seq::<u8>::empty() + enc_entries(bvals_of(es@)) =~= enc_entries(
                    bvals_of(es@),
                ));
            }
            Some(out)
        },
        _ => None,
    }
}

proof fn lemma_le32_round(x: u32)
    ensures
        le32_val(
            le32_bytes(x)[0],
            le32_bytes(x)[1],
            le32_bytes(x)[2],
            le32_bytes(x)[3],
        ) == x,
{
    let n = x as int;
    assert((n % 0x100) + (n / 0x100 % 0x100) * 0x100 + (n / 0x10000 % 0x100) * 0x10000 + (n
        / 0x1000000 % 0x100) * 0x1000000 == n) by (nonlinear_arith)
        requires
            0 <= n < 0x100000000,
    ;
}

proof fn lemma_sd_key_encoded(b: Seq<u8>, i: int, k: Seq<u8>)
    requires
        0 <= i,
        i + k.len() < b.len(),
        b.subrange(i, i + k.len()) == k,
        b[i + k.len()] == 0,
        wf_bytes(k),
    ensures
        sd_key(b, i) == Some((k, i + k.len() + 1)),
    decreases k.len(),
{
    if k.len() == 0 {
        assert(b[i] == 0);
        assert(k =~= Seq::<u8>::empty());
    } else {
        assert(b[i] == k[0]);
        assert(k[0] != 0);
        let k2 = k.drop_first();
        assert(b.subrange(i + 1, i + 1 + k2.len()) =~= k2);
        lemma_sd_key_encoded(b, i + 1, k2);
        assert(seq![b[i]] + k2 =~= k);
    }
}

/// Decoding the encoding of well-formed entries, in any surrounding buffer
/// whose next byte is the end byte, yields exactly those entries.
#[verifier::rlimit(100)]
#[verifier::spinoff_prover]
proof fn lemma_round_entries(b: Seq<u8>, i: int, es: Seq<(Seq<u8>, BVal)>, j: int)
    requires
        wf_entries(es),
        0 <= i <= j < b.len(),
        b.subrange(i, j) == enc_entries(es),
        b[j] == 8,
    ensures
        sd_entries(b, i) == SpecParse::Parsed(es, j + 1),
    decreases es,
{
    if es.len() == 0 {
        assert(j - i == 0);
        assert(b[i] == 8);
        assert(es =~= Seq::<(Seq<u8>, BVal)>::empty());
    } else {
        let e = es[0];
        let es2 = es.drop_first();
        let ke = enc_entry(e.0, e.1);
        let klen = e.0.len() as int;
        assert(enc_entries(es) == ke + enc_entries(es2));
        assert(forall|m: int| 0 <= m < j - i ==> b[i + m] == #[trigger] enc_entries(es)[m]);
        assert(forall|m: int| 0 <= m < ke.len() ==> #[trigger] enc_entries(es)[m] == ke[m]);
        assert(ke.len() <= j - i);
        assert(forall|m: int| 0 <= m < ke.len() ==> b[i + m] == #[trigger] ke[m]) by {
            assert forall|m: int| 0 <= m < ke.len() implies b[i + m] == #[trigger] ke[m] by {
                assert(b[i + m] == enc_entries(es)[m]);
                assert(enc_entries(es)[m] == ke[m]);
            }
        }
        let mid = i + ke.len();
        assert(b.subrange(mid, j) =~= enc_entries(es2)) by {
            assert forall|m: int| 0 <= m < j - mid implies b[mid + m] == #[trigger] enc_entries(
                es2,
            )[m] by {
                assert(b[i + (ke.len() + m)] == enc_entries(es)[ke.len() + m]);
                assert(enc_entries(es)[ke.len() + m] == enc_entries(es2)[m]);
            }
        }
        match e.1 {
            BVal::Str(s) => {
                assert(ke == seq![1u8] + e.0 + seq![0u8] + s + seq![0u8]);
                assert(b[i] == 1) by {
                    assert(ke[0] == 1u8);
                    assert(b[i + 0] == ke[0]);
                }
                assert(b.subrange(i + 1, i + 1 + klen) =~= e.0) by {
                    assert forall|m: int| 0 <= m < klen implies b[i + 1 + m] == #[trigger] e.0[m] by {
                        assert(ke[1 + m] == e.0[m]);
                        assert(b[i + (1 + m)] == ke[1 + m]);
                    }
                }
                assert(b[i + 1 + klen] == 0) by {
                    assert(ke[1 + klen] == 0u8);
                    assert(b[i + (1 + klen)] == ke[1 + klen]);
                }
                lemma_sd_key_encoded(b, i + 1, e.0);
                let jk = i + 1 + klen + 1;
                assert(sd_key(b, i + 1) == Some((e.0, jk)));
                assert(b.subrange(jk, jk + s.len()) =~= s) by {
                    assert forall|m: int| 0 <= m < s.len() implies b[jk + m] == #[trigger] s[m] by {
                        assert(ke[2 + klen + m] == s[m]);
                        assert(b[i + (2 + klen + m)] == ke[2 + klen + m]);
                    }
                }
                assert(b[jk + s.len()] == 0) by {
                    assert(ke[2 + klen + s.len()] == 0u8);
                    assert(b[i + (2 + klen + s.len())] == ke[2 + klen + s.len()]);
                }
                assert(wf_val(es[0].1));
                assert(wf_bytes(s));
                lemma_sd_key_encoded(b, jk, s);
                let jv = jk + s.len() + 1;
                assert(sd_key(b, jk) == Some((s, jv)));
                assert(jv == mid);
                lemma_round_entries(b, jv, es2, j);
                assert(sd_rest(b, e.0, BVal::Str(s), jv) == SpecParse::Parsed(
                    seq![(e.0, BVal::Str(s))] + es2,
                    j + 1,
                ));
                assert(seq![(e.0, BVal::Str(s))] + es2 =~= es);
            },
            BVal::Int(x) => {
                assert(ke == seq![2u8] + e.0 + seq![0u8] + le32_bytes(x));
                assert(b[i] == 2) by {
                    assert(ke[0] == 2u8);
                    assert(b[i + 0] == ke[0]);
                }
                assert(b.subrange(i + 1, i + 1 + klen) =~= e.0) by {
                    assert forall|m: int| 0 <= m < klen implies b[i + 1 + m] == #[trigger] e.0[m] by {
                        assert(ke[1 + m] == e.0[m]);
                        assert(b[i + (1 + m)] == ke[1 + m]);
                    }
                }
                assert(b[i + 1 + klen] == 0) by {
                    assert(ke[1 + klen] == 0u8);
                    assert(b[i + (1 + klen)] == ke[1 + klen]);
                }
                lemma_sd_key_encoded(b, i + 1, e.0);
                let jk = i + 1 + klen + 1;
                assert(sd_key(b, i + 1) == Some((e.0, jk)));
                assert(jk + 4 == mid);
                assert(b[jk] == le32_bytes(x)[0] && b[jk + 1] == le32_bytes(x)[1] && b[jk + 2]
                    == le32_bytes(x)[2] && b[jk + 3] == le32_bytes(x)[3]) by {
                    assert(ke[2 + klen] == le32_bytes(x)[0]);
                    assert(ke[2 + klen + 1] == le32_bytes(x)[1]);
                    assert(ke[2 + klen + 2] == le32_bytes(x)[2]);
                    assert(ke[2 + klen + 3] == le32_bytes(x)[3]);
                    assert(b[i + (2 + klen)] == ke[2 + klen]);
                    assert(b[i + (2 + klen + 1)] == ke[2 + klen + 1]);
                    assert(b[i + (2 + klen + 2)] == ke[2 + klen + 2]);
                    assert(b[i + (2 + klen + 3)] == ke[2 + klen + 3]);
                }
                lemma_le32_round(x);
                assert(le32_val(b[jk], b[jk + 1], b[jk + 2], b[jk + 3]) == x);
                lemma_round_entries(b, jk + 4, es2, j);
                assert(sd_rest(b, e.0, BVal::Int(x), jk + 4) == SpecParse::Parsed(
                    seq![(e.0, BVal::Int(x))] + es2,
                    j + 1,
                ));
                assert(seq![(e.0, BVal::Int(x))] + es2 =~= es);
            },
            BVal::Obj(child) => {
                assert(ke == seq![0u8] + e.0 + seq![0u8] + enc_entries(child) + seq![8u8]);
                assert(b[i] == 0) by {
                    assert(ke[0] == 0u8);
                    assert(b[i + 0] == ke[0]);
                }
                assert(b.subrange(i + 1, i + 1 + klen) =~= e.0) by {
                    assert forall|m: int| 0 <= m < klen implies b[i + 1 + m] == #[trigger] e.0[m] by {
                        assert(ke[1 + m] == e.0[m]);
                        assert(b[i + (1 + m)] == ke[1 + m]);
                    }
                }
                assert(b[i + 1 + klen] == 0) by {
                    assert(ke[1 + klen] == 0u8);
                    assert(b[i + (1 + klen)] == ke[1 + klen]);
                }
                lemma_sd_key_encoded(b, i + 1, e.0);
                let jk = i + 1 + klen + 1;
                assert(sd_key(b, i + 1) == Some((e.0, jk)));
                let jend = mid - 1;
                assert(b.subrange(jk, jend) =~= enc_entries(child)) by {
                    assert forall|m: int| 0 <= m < enc_entries(child).len() implies b[jk + m]
                        == #[trigger] enc_entries(child)[m] by {
                        assert(ke[2 + klen + m] == enc_entries(child)[m]);
                        assert(b[i + (2 + klen + m)] == ke[2 + klen + m]);
                    }
                }
                assert(b[jend] == 8) by {
                    assert(ke[ke.len() - 1] == 8u8);
                    assert(b[i + (ke.len() - 1)] == ke[ke.len() - 1]);
                }
                assert(wf_val(es[0].1));
                assert(wf_entries(child));
                lemma_round_entries(b, jk, child, jend);
                assert(sd_entries(b, jk) == SpecParse::Parsed(child, mid));
                lemma_round_entries(b, mid, es2, j);
                assert(sd_rest(b, e.0, BVal::Obj(child), mid) == SpecParse::Parsed(
                    seq![(e.0, BVal::Obj(child))] + es2,
                    j + 1,
                ));
                assert(seq![(e.0, BVal::Obj(child))] + es2 =~= es);
            },
        }
    }
}

/// Decoding the encoding of well-formed entries gives exactly those entries
/// back: the round trip of the binary format.
pub proof fn lemma_decode_of_encode(es: Seq<(Seq<u8>, BVal)>)
    requires
        wf_entries(es),
    ensures
        sd_doc(enc_doc(es)) == SpecParse::Parsed(es, enc_doc(es).len() as int),
{
    let b = enc_doc(es);
    let l = enc_entries(es).len() as int;
    assert(b.subrange(0, l) =~= enc_entries(es));
    assert(b[l] == 8);
    lemma_round_entries(b, 0, es, l);
}

/// Decoding any truncation of a well-formed document's encoding yields a
/// decode error, never a tree: a stream cut anywhere short is rejected.
pub proof fn lemma_truncation_fails(es: Seq<(Seq<u8>, BVal)>, cut: int)
    requires
        wf_entries(es),
        0 <= cut < enc_doc(es).len(),
    ensures
        sd_doc(enc_doc(es).take(cut)) is Fail,
{
    let b = enc_doc(es);
    let p = b.take(cut);
    lemma_decode_of_encode(es);
    match sd_entries(p, 0) {
        SpecParse::Parsed(es2, end2) => {
            lemma_sd_entries_bounds(p, 0);
            if end2 == p.len() {
                assert(forall|m: int| 0 <= m < end2 ==> b[m] == p[m]);
                lemma_sd_entries_local(p, b, 0);
                assert(sd_entries(b, 0) == SpecParse::Parsed(es2, end2));
                assert(sd_entries(b, 0) == SpecParse::Parsed(es, b.len() as int));
                assert(false);
            }
        },
        SpecParse::Fail(_) => {
        },
    }
}

} // verus!

