//! Key-value document model and accessor.
//!
//! A text document is held as an ordered tree of [`Node`]s: a node is either a
//! string leaf or an object holding a sequence of named children. Lookups walk
//! a path of keys and may fall back, per level, to the lowercased form of the
//! requested key, since some documents carry either spelling. Every failing
//! lookup reports which path segment was absent instead of aborting.

use vstd::prelude::*;

verus! {

/// One node of a parsed key-value document: a string leaf or an ordered
/// object of named children. An object may hold several children under the
/// same name; lookups return the first.
#[derive(Debug, PartialEq)]
pub enum Node {
    Str(String),
    Obj(Vec<(String, Node)>),
}

/// Does `a` equal `b` lowered? ASCII letters lower to their lowercase form,
/// every other character only to itself.
pub open spec fn lower_matches(a: char, b: char) -> bool {
    if 65 <= b as u32 && b as u32 <= 90 {
        a as u32 == b as u32 + 32
    } else {
        a == b
    }
}

/// Is `k` the ASCII-lowercased form of `key`?
pub open spec fn is_lowered(k: Seq<char>, key: Seq<char>) -> bool {
    k.len() == key.len() && (forall|i: int| 0 <= i < k.len() ==> lower_matches(k[i], key[i]))
}

/// The first entry whose key equals `key` exactly.
pub open spec fn lookup_exact(entries: Seq<(String, Node)>, key: Seq<char>) -> Option<Node>
    decreases entries.len(),
{
    if entries.len() == 0 {
        None
    } else if entries[0].0@ == key {
        Some(entries[0].1)
    } else {
        lookup_exact(entries.drop_first(), key)
    }
}

/// The first entry whose key is the lowercased form of `key`.
pub open spec fn lookup_lowered(entries: Seq<(String, Node)>, key: Seq<char>) -> Option<Node>
    decreases entries.len(),
{
    if entries.len() == 0 {
        None
    } else if is_lowered(entries[0].0@, key) {
        Some(entries[0].1)
    } else {
        lookup_lowered(entries.drop_first(), key)
    }
}

/// Lookup of `key` among entries: an exact match first, then, when
/// `case_fallback` is set and no exact match exists, the lowercased form.
pub open spec fn entries_get(entries: Seq<(String, Node)>, key: Seq<char>, case_fallback: bool) -> Option<
    Node,
> {
    match lookup_exact(entries, key) {
        Some(m) => Some(m),
        None => if case_fallback {
            lookup_lowered(entries, key)
        } else {
            None
        },
    }
}

/// Lookup of `key` in a node. A string leaf holds no children.
pub open spec fn node_get(n: Node, key: Seq<char>, case_fallback: bool) -> Option<Node> {
    match n {
        Node::Str(_) => None,
        Node::Obj(entries) => entries_get(entries@, key, case_fallback),
    }
}

/// Walking `path` from segment `i` on: the node reached, or the index of the
/// first absent segment.
pub open spec fn node_get_nested(n: Node, path: Seq<Seq<char>>, i: int, case_fallback: bool) -> Result<
    Node,
    int,
>
    decreases path.len() - i,
{
    if i < 0 || i >= path.len() {
        Ok(n)
    } else {
        match node_get(n, path[i], case_fallback) {
            Some(m) => node_get_nested(m, path, i + 1, case_fallback),
            None => Err(i),
        }
    }
}

/// The keys of a path, as sequences of characters.
pub open spec fn path_view(path: Seq<String>) -> Seq<Seq<char>> {
    path.map_values(|s: String| s@)
}

proof fn lemma_lookup_exact_skip_step(entries: Seq<(String, Node)>, key: Seq<char>, i: int)
    requires
        0 <= i < entries.len(),
        entries[i].0@ != key,
    ensures
        lookup_exact(entries.skip(i), key) == lookup_exact(entries.skip(i + 1), key),
{
    assert(entries.skip(i).drop_first() =~= entries.skip(i + 1));
}

proof fn lemma_lookup_lowered_skip_step(entries: Seq<(String, Node)>, key: Seq<char>, i: int)
    requires
        0 <= i < entries.len(),
        !is_lowered(entries[i].0@, key),
    ensures
        lookup_lowered(entries.skip(i), key) == lookup_lowered(entries.skip(i + 1), key),
{
    assert(entries.skip(i).drop_first() =~= entries.skip(i + 1));
}

/// Does `k` hold the lowercased form of `key`? Only ASCII letters change case.
fn eq_lowered(k: &String, key: &String) -> (r: bool)
    ensures
        r == is_lowered(k@, key@),
{
    let n = k.as_str().unicode_len();
    if n != key.as_str().unicode_len() {
        return false;
    }
    let mut i: usize = 0;
    while i < n
        invariant
            n == k@.len() == key@.len(),
            0 <= i <= n,
            forall|j: int| 0 <= j < i ==> lower_matches(k@[j], key@[j]),
        decreases n - i,
    {
        let a = k.as_str().get_char(i);
        let b = key.as_str().get_char(i);
        let au = a as u32;
        let bu = b as u32;
        let hit = if 65 <= bu && bu <= 90 {
            au == bu + 32
        } else {
            a == b
        };
        if !hit {
            return false;
        }
        i = i + 1;
    }
    true
}

/// The first entry named `key` exactly or, when `case_fallback` is set and no
/// exact match exists, the first entry named by the lowercased form of `key`.
fn get_in_entries<'a>(entries: &'a Vec<(String, Node)>, key: &String, case_fallback: bool) -> (r:
    Option<&'a Node>)
    ensures
        match r {
            Some(m) => entries_get(entries@, key@, case_fallback) == Some(*m),
            None => entries_get(entries@, key@, case_fallback) is None,
        },
{
    let n = entries.len();
    assert(entries@.skip(0) =~= entries@);
    let mut i: usize = 0;
    while i < n
        invariant
            n == entries@.len(),
            0 <= i <= n,
            lookup_exact(entries@, key@) == lookup_exact(entries@.skip(i as int), key@),
        decreases n - i,
    {
        if entries[i].0.eq(key) {
            proof {
                assert(entries@.skip(i as int)[0] == entries@[i as int]);
                assert(lookup_exact(entries@.skip(i as int), key@) == Some(entries@[i as int].1));
            }
            return Some(&entries[i].1);
        }
        proof {
            lemma_lookup_exact_skip_step(entries@, key@, i as int);
        }
        i = i + 1;
    }
    assert(entries@.skip(n as int) =~= Seq::<(String, Node)>::empty());
    if !case_fallback {
        return None;
    }
    assert(entries@.skip(0) =~= entries@);
    let mut i: usize = 0;
    while i < n
        invariant
            n == entries@.len(),
            0 <= i <= n,
            case_fallback,
            lookup_exact(entries@, key@) is None,
            lookup_lowered(entries@, key@) == lookup_lowered(entries@.skip(i as int), key@),
        decreases n - i,
    {
        if eq_lowered(&entries[i].0, key) {
            proof {
                assert(entries@.skip(i as int)[0] == entries@[i as int]);
                assert(lookup_lowered(entries@.skip(i as int), key@) == Some(entries@[i as int].1));
                assert(entries_get(entries@, key@, case_fallback) == Some(entries@[i as int].1));
            }
            return Some(&entries[i].1);
        }
        proof {
            lemma_lookup_lowered_skip_step(entries@, key@, i as int);
        }
        i = i + 1;
    }
    assert(entries@.skip(n as int) =~= Seq::<(String, Node)>::empty());
    None
}

impl Node {
    /// The string this node holds, if it is a leaf.
    pub fn as_str_value(&self) -> (r: Option<&String>)
        ensures
            match r {
                Some(s) => self is Str && self->Str_0 == *s,
                None => self is Obj,
            },
    {
        match self {
            Node::Str(s) => Some(s),
            Node::Obj(_) => None,
        }
    }

    /// The children this node holds, if it is an object.
    pub fn as_entries(&self) -> (r: Option<&Vec<(String, Node)>>)
        ensures
            match r {
                Some(es) => self is Obj && self->Obj_0 == *es,
                None => self is Str,
            },
    {
        match self {
            Node::Str(_) => None,
            Node::Obj(es) => Some(es),
        }
    }

    /// The first child named `key`, with an optional per-level fall-back to
    /// the lowercased form of `key`.
    pub fn get<'a>(&'a self, key: &String, case_fallback: bool) -> (r: Option<&'a Node>)
        ensures
            match r {
                Some(m) => node_get(*self, key@, case_fallback) == Some(*m),
                None => node_get(*self, key@, case_fallback) is None,
            },
    {
        match self {
            Node::Str(_) => None,
            Node::Obj(entries) => get_in_entries(entries, key, case_fallback),
        }
    }

    /// Walks `path` level by level; on failure reports the index of the first
    /// absent segment.
    pub fn get_nested<'a>(&'a self, path: &Vec<String>, case_fallback: bool) -> (r: Result<
        &'a Node,
        usize,
    >)
        ensures
            match r {
                Ok(m) => node_get_nested(*self, path_view(path@), 0, case_fallback) == Ok::<
                    Node,
                    int,
                >(*m),
                Err(i) => i < path@.len() && node_get_nested(*self, path_view(path@), 0, case_fallback)
                    == Err::<Node, int>(i as int),
            },
    {
        let ghost pv = path_view(path@);
        let n = path.len();
        let mut cur: &Node = self;
        let mut i: usize = 0;
        while i < n
            invariant
                n == path@.len(),
                pv == path_view(path@),
                0 <= i <= n,
                node_get_nested(*self, pv, 0, case_fallback) == node_get_nested(
                    *cur,
                    pv,
                    i as int,
                    case_fallback,
                ),
            decreases n - i,
        {
            match cur.get(&path[i], case_fallback) {
                Some(m) => {
                    cur = m;
                },
                None => {
                    return Err(i);
                },
            }
            i = i + 1;
        }
        Ok(cur)
    }
}

/// Are all characters decimal digits, with at least one?
pub open spec fn is_digits(s: Seq<char>) -> bool {
    s.len() > 0 && (forall|i: int| 0 <= i < s.len() ==> 48 <= s[i] as u32 && s[i] as u32 <= 57)
}

/// The value of a sequence of decimal digits.
pub open spec fn digits_val(s: Seq<char>) -> nat
    decreases s.len(),
{
    if s.len() == 0 {
        0
    } else {
        (digits_val(s.drop_last()) * 10 + (s.last() as u32 - 48)) as nat
    }
}

/// What parsing a decimal unsigned 64-bit number returns: the digits' value,
/// when the text is all digits and the value fits.
pub open spec fn spec_parse_u64(s: Seq<char>) -> Option<u64> {
    if is_digits(s) && digits_val(s) <= u64::MAX {
        Some(digits_val(s) as u64)
    } else {
        None
    }
}

proof fn lemma_digits_val_grows(s: Seq<char>, i: int)
    requires
        0 <= i <= s.len(),
        is_digits(s),
    ensures
        digits_val(s.take(i)) <= digits_val(s),
    decreases s.len() - i,
{
    if i == s.len() {
        assert(s.take(i) =~= s);
    } else {
        assert(s.take(i + 1).drop_last() =~= s.take(i));
        assert(48 <= s[i] as u32 <= 57);
        assert(s.take(i + 1).last() == s[i]);
        assert(digits_val(s.take(i)) <= digits_val(s.take(i + 1)));
        lemma_digits_val_grows(s, i + 1);
    }
}

/// Parses a decimal unsigned 64-bit number: all characters must be digits and
/// the value must fit.
pub fn parse_u64(s: &String) -> (r: Option<u64>)
    ensures
        r == spec_parse_u64(s@),
{
    let n = s.as_str().unicode_len();
    if n == 0 {
        return None;
    }
    let mut acc: u64 = 0;
    let mut i: usize = 0;
    while i < n
        invariant
            n == s@.len(),
            0 < n,
            0 <= i <= n,
            forall|j: int| 0 <= j < i ==> 48 <= s@[j] as u32 && s@[j] as u32 <= 57,
            acc == digits_val(s@.take(i as int)),
        decreases n - i,
    {
        let c = s.as_str().get_char(i);
        let cu = c as u32;
        if !(48 <= cu && cu <= 57) {
            return None;
        }
        let d: u64 = (cu - 48) as u64;
        proof {
            assert(s@.take(i + 1).drop_last() =~= s@.take(i as int));
        }
        let step = match acc.checked_mul(10) {
            Some(m) => m.checked_add(d),
            None => None,
        };
        match step {
            Some(v) => {
                acc = v;
            },
            None => {
                proof {
                    if is_digits(s@) {
                        lemma_digits_val_grows(s@, i + 1);
                    }
                }
                return None;
            },
        }
        i = i + 1;
    }
    proof {
        assert(s@.take(n as int) =~= s@);
    }
    Some(acc)
}

/// The canonical decimal digits of `n`, most significant first.
pub open spec fn u64_digits(n: nat) -> Seq<char>
    decreases n,
{
    if n < 10 {
        seq![digit_char(n)]
    } else {
        u64_digits(n / 10).push(digit_char(n % 10))
    }
}

/// The character for one decimal digit.
pub open spec fn digit_char(d: nat) -> char {
    if d == 0 {
        '0'
    } else if d == 1 {
        '1'
    } else if d == 2 {
        '2'
    } else if d == 3 {
        '3'
    } else if d == 4 {
        '4'
    } else if d == 5 {
        '5'
    } else if d == 6 {
        '6'
    } else if d == 7 {
        '7'
    } else if d == 8 {
        '8'
    } else {
        '9'
    }
}

fn push_digit(s: &mut String, d: u64)
    requires
        d < 10,
    ensures
        final(s)@ == old(s)@.push(digit_char(d as nat)),
{
    if d == 0 {
        s.append("0");
        proof { reveal_strlit("0"); assert(s@ =~= old(s)@.push('0')); }
    } else if d == 1 {
        s.append("1");
        proof { reveal_strlit("1"); assert(s@ =~= old(s)@.push('1')); }
    } else if d == 2 {
        s.append("2");
        proof { reveal_strlit("2"); assert(s@ =~= old(s)@.push('2')); }
    } else if d == 3 {
        s.append("3");
        proof { reveal_strlit("3"); assert(s@ =~= old(s)@.push('3')); }
    } else if d == 4 {
        s.append("4");
        proof { reveal_strlit("4"); assert(s@ =~= old(s)@.push('4')); }
    } else if d == 5 {
        s.append("5");
        proof { reveal_strlit("5"); assert(s@ =~= old(s)@.push('5')); }
    } else if d == 6 {
        s.append("6");
        proof { reveal_strlit("6"); assert(s@ =~= old(s)@.push('6')); }
    } else if d == 7 {
        s.append("7");
        proof { reveal_strlit("7"); assert(s@ =~= old(s)@.push('7')); }
    } else if d == 8 {
        s.append("8");
        proof { reveal_strlit("8"); assert(s@ =~= old(s)@.push('8')); }
    } else {
        s.append("9");
        proof { reveal_strlit("9"); assert(s@ =~= old(s)@.push('9')); }
    }
}

/// Renders `n` as its canonical decimal digits.
pub fn u64_to_decimal(n: u64) -> (r: String)
    ensures
        r@ == u64_digits(n as nat),
    decreases n,
{
    if n < 10 {
        let mut s = String::new();
        push_digit(&mut s, n);
        assert(s@ =~= seq![digit_char(n as nat)]);
        s
    } else {
        let mut s = u64_to_decimal(n / 10);
        push_digit(&mut s, n % 10);
        s
    }
}

#[verifier::external_type_specification]
#[verifier::external_body]
pub struct ExKvValue<'a>(keyvalues_parser::Value<'a>);

/// What parsing a key-value text document returns: the root key and the root
/// value, or nothing when the text is not a well-formed document. The result
/// is a function of the text alone.
pub uninterp spec fn vdf_parse(text: Seq<char>) -> Option<(String, Node)>;

/// Relies on keyvalues_parser::parse: a document is one root key with one
/// value, and parsing depends on the text alone.
#[verifier::external_body]
pub fn parse_vdf_text(text: &str) -> (r: Option<(String, Node)>)
    ensures
        r == vdf_parse(text@),
{
    match keyvalues_parser::parse(text) {
        Ok(partial) => {
            let vdf = partial.into_vdf();
            let key = vdf.key.into_owned();
            Some((key, vdf_value_to_node(&vdf.value)))
        },
        Err(_) => None,
    }
}

/// Relies on keyvalues_parser::Value: rebuilds the parsed tree as plain
/// nodes, one pair per key/value occurrence, keys and children in the
/// parser's own iteration order.
#[verifier::external_body]
fn vdf_value_to_node<'a>(v: &keyvalues_parser::Value<'a>) -> Node {
    match v {
        keyvalues_parser::Value::Str(s) => Node::Str(s.clone().into_owned()),
        keyvalues_parser::Value::Obj(o) => Node::Obj(
            o.iter()
                .flat_map(|(k, vs)| vs.iter().map(|x| (k.clone().into_owned(), vdf_value_to_node(x))))
                .collect(),
        ),
    }
}

} // verus!
