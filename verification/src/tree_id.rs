//! Tree ids: the key by which trees compete, the largest one winning.
use rand::rngs::ThreadRng;
use std::cmp::Ordering;
use vstd::prelude::*;

use crate::numerals::{
    chars_of,
    digits,
    lemma_hex_digits_read_back,
    lemma_parse_hex_digits,
    parse_hex,
    read_hex,
    to_digits,
};
use crate::rng;

verus! {

/// A tree id, ordered by `primary` first and `secondary` second.
#[derive(Debug, Clone, Copy, PartialEq, Eq, Structural)]
pub struct TreeId {
    pub primary: u64,
    pub secondary: u64,
}

/// The strict order of tree ids: lexicographic on `(primary, secondary)`.
pub open spec fn id_lt(a: TreeId, b: TreeId) -> bool {
    a.primary < b.primary || (a.primary == b.primary && a.secondary < b.secondary)
}

/// The three-way comparison of tree ids that the strict order induces.
pub open spec fn id_ordering(a: TreeId, b: TreeId) -> Ordering {
    if id_lt(a, b) {
        Ordering::Less
    } else if a == b {
        Ordering::Equal
    } else {
        Ordering::Greater
    }
}

/// The order of tree ids is a strict total order: irreflexive, transitive,
/// and any two different ids are related one way.
pub proof fn lemma_id_order_is_total(a: TreeId, b: TreeId, c: TreeId)
    ensures
        !id_lt(a, a),
        id_lt(a, b) && id_lt(b, c) ==> id_lt(a, c),
        id_lt(a, b) ==> !id_lt(b, a),
        a != b ==> id_lt(a, b) || id_lt(b, a),
{
}

/// The error of parsing a malformed tree id.
#[derive(Debug, PartialEq, Eq, Structural)]
pub struct ParseTreeIdError;

impl TreeId {
    /// The id with the given primary key and secondary key 0.
    pub fn new_simple(primary: u64) -> (id: Self)
        ensures
            id.primary == primary,
            id.secondary == 0,
    {
        TreeId { primary, secondary: 0 }
    }

    /// An id whose two keys are drawn below `max`, which must be positive.
    pub fn new_random(max: u64, rng: &mut ThreadRng) -> (id: Self)
        requires
            0 < max,
        ensures
            id.primary < max,
            id.secondary < max,
    {
        let primary = rng::random_u64_below(rng, max);
        let secondary = rng::random_u64_below(rng, max);
        TreeId { primary, secondary }
    }

    /// Compares by `primary`, then by `secondary`.
    pub fn cmp(&self, other: &Self) -> (r: Ordering)
        ensures
            r == id_ordering(*self, *other),
    {
        if self.primary < other.primary {
            Ordering::Less
        } else if self.primary > other.primary {
            Ordering::Greater
        } else if self.secondary < other.secondary {
            Ordering::Less
        } else if self.secondary > other.secondary {
            Ordering::Greater
        } else {
            Ordering::Equal
        }
    }
}

/// Tree ids compare by `primary`, then by `secondary` (see `TreeId::cmp`).
impl PartialOrd for TreeId {
    fn partial_cmp(&self, other: &Self) -> (r: Option<Ordering>) {
        Some(self.cmp(other))
    }
}

impl vstd::std_specs::cmp::PartialOrdSpecImpl for TreeId {
    open spec fn obeys_partial_cmp_spec() -> bool {
        true
    }

    open spec fn partial_cmp_spec(&self, other: &Self) -> Option<Ordering> {
        Some(id_ordering(*self, *other))
    }
}

/// The pieces of a string between its `:` separators (one piece more than
/// there are separators).
pub open spec fn split_colon(s: Seq<char>) -> Seq<Seq<char>>
    decreases s.len(),
{
    if s.len() == 0 {
        seq![Seq::empty()]
    } else {
        let rest = split_colon(s.drop_last());
        if s.last() == ':' {
            rest.push(Seq::empty())
        } else {
            rest.update(rest.len() - 1, rest.last().push(s.last()))
        }
    }
}

/// A tree id as text: one hexadecimal key, the primary one, or the primary
/// and the secondary key separated by `:` (see `parse_hex`).
pub open spec fn parse_tree_id(s: Seq<char>) -> Option<TreeId> {
    let parts = split_colon(s);
    if parts.len() == 1 {
        match parse_hex(parts[0]) {
            Some(p) => Some(TreeId { primary: p, secondary: 0 }),
            None => None,
        }
    } else if parts.len() == 2 {
        match (parse_hex(parts[0]), parse_hex(parts[1])) {
            (Some(p), Some(q)) => Some(TreeId { primary: p, secondary: q }),
            _ => None,
        }
    } else {
        None
    }
}

/// How a tree id is written: the primary key in upper-case hexadecimal,
/// `:`, and the secondary key in lower-case hexadecimal.
pub open spec fn display_of(id: TreeId) -> Seq<char> {
    digits(id.primary as nat, 16, true) + seq![':'] + digits(id.secondary as nat, 16, false)
}

/// The split of a string always has a piece.
proof fn lemma_split_nonempty(s: Seq<char>)
    ensures
        split_colon(s).len() >= 1,
    decreases s.len(),
{
    if s.len() > 0 {
        lemma_split_nonempty(s.drop_last());
    }
}

/// Appending characters without a separator extends the last piece.
proof fn lemma_split_extend(s: Seq<char>, b: Seq<char>)
    requires
        !b.contains(':'),
    ensures
        split_colon(s + b) == split_colon(s).update(
            split_colon(s).len() - 1,
            split_colon(s).last() + b,
        ),
    decreases b.len(),
{
    lemma_split_nonempty(s);
    if b.len() == 0 {
        assert(s + b =~= s);
        assert(split_colon(s).last() + b =~= split_colon(s).last());
        assert(split_colon(s).update(split_colon(s).len() - 1, split_colon(s).last())
            =~= split_colon(s));
    } else {
        let b0 = b.drop_last();
        assert(!b0.contains(':')) by {
            if b0.contains(':') {
                let i = choose|i: int| 0 <= i < b0.len() && b0[i] == ':';
                assert(b[i] == ':');
            }
        }
        lemma_split_extend(s, b0);
        assert((s + b).drop_last() =~= s + b0);
        assert((s + b).last() == b.last());
        assert(b.last() != ':') by {
            assert(b[b.len() - 1] == b.last());
        }
        assert(split_colon(s).last() + b0 + seq![b.last()] =~= split_colon(s).last() + b);
        let whole = split_colon(s);
        let rest = split_colon(s + b0);
        assert(rest == whole.update(whole.len() - 1, whole.last() + b0));
        assert(rest.len() == whole.len());
        assert(rest.last() == whole.last() + b0);
        assert((whole.last() + b0).push(b.last()) =~= whole.last() + b);
        assert(split_colon(s + b) == rest.update(rest.len() - 1, rest.last().push(b.last())));
        assert(split_colon(s + b) =~= split_colon(s).update(
            split_colon(s).len() - 1,
            split_colon(s).last() + b,
        ));
    }
}

/// A written tree id splits into its two keys.
proof fn lemma_split_display(id: TreeId)
    ensures
        split_colon(display_of(id)) == seq![
            digits(id.primary as nat, 16, true),
            digits(id.secondary as nat, 16, false),
        ],
{
    let a = digits(id.primary as nat, 16, true);
    let b = digits(id.secondary as nat, 16, false);
    lemma_hex_digits_read_back(id.primary as nat, true);
    lemma_hex_digits_read_back(id.secondary as nat, false);
    let empty = Seq::<char>::empty();
    assert(split_colon(empty) == seq![empty]);
    lemma_split_extend(empty, a);
    assert(empty + a =~= a);
    assert(split_colon(a) =~= seq![a]);
    let sep = a + seq![':'];
    assert(sep.drop_last() =~= a);
    assert(split_colon(sep) =~= seq![a, empty]);
    lemma_split_extend(sep, b);
    assert(display_of(id) =~= sep + b);
    assert(split_colon(sep + b) =~= seq![a, b]);
}

/// Reading a written tree id gives the id back (for keys that fit in a
/// `usize`, which tree ids are read as).
pub proof fn lemma_parse_display_round_trip(id: TreeId)
    requires
        id.primary <= usize::MAX,
        id.secondary <= usize::MAX,
    ensures
        parse_tree_id(display_of(id)) == Some(id),
{
    lemma_split_display(id);
    lemma_parse_hex_digits(id.primary as nat, true);
    lemma_parse_hex_digits(id.secondary as nat, false);
}

/// Splits the characters at each `:`.
fn split_at_colons(chars: &Vec<char>) -> (r: Vec<Vec<char>>)
    ensures
        r@.len() == split_colon(chars@).len(),
        forall|k: int| 0 <= k < r@.len() ==> (#[trigger] r@[k])@ == split_colon(chars@)[k],
{
    let mut parts: Vec<Vec<char>> = Vec::new();
    parts.push(Vec::new());
    let mut i: usize = 0;
    while i < chars.len()
        invariant
            i <= chars@.len(),
            parts@.len() == split_colon(chars@.take(i as int)).len(),
            parts@.len() >= 1,
            forall|k: int|
                0 <= k < parts@.len() ==> (#[trigger] parts@[k])@ == split_colon(
                    chars@.take(i as int),
                )[k],
        decreases chars@.len() - i,
    {
        let c = chars[i];
        let ghost before = parts@;
        proof {
            assert(chars@.take(i + 1).drop_last() =~= chars@.take(i as int));
            assert(chars@.take(i + 1).last() == c);
        }
        if c == ':' {
            parts.push(Vec::new());
        } else {
            let last = parts.len() - 1;
            parts[last].push(c);
            proof {
                assert forall|k: int| 0 <= k < parts@.len() implies (#[trigger] parts@[k])@
                    == split_colon(chars@.take(i + 1))[k] by {
                    if k != last {
                        assert(parts@[k] == before[k]);
                    }
                }
            }
        }
        i = i + 1;
    }
    assert(chars@.take(i as int) =~= chars@);
    parts
}

impl TreeId {
    /// Reads a tree id (see `parse_tree_id`).
    pub fn parse(s: &str) -> (r: Result<TreeId, ParseTreeIdError>)
        ensures
            r == match parse_tree_id(s@) {
                Some(id) => Ok::<TreeId, ParseTreeIdError>(id),
                None => Err(ParseTreeIdError),
            },
    {
        let chars = chars_of(s);
        let parts = split_at_colons(&chars);
        if parts.len() == 1 {
            match read_hex(parts[0].as_slice()) {
                Some(p) => Ok(TreeId { primary: p, secondary: 0 }),
                None => Err(ParseTreeIdError),
            }
        } else if parts.len() == 2 {
            let first = read_hex(parts[0].as_slice());
            let second = read_hex(parts[1].as_slice());
            match (first, second) {
                (Some(p), Some(q)) => Ok(TreeId { primary: p, secondary: q }),
                _ => Err(ParseTreeIdError),
            }
        } else {
            Err(ParseTreeIdError)
        }
    }

    /// The id as text (see `display_of`).
    pub fn to_string(&self) -> (r: String)
        ensures
            r@ == display_of(*self),
    {
        let mut text = to_digits(self.primary, 16, true);
        text.append(":");
        let secondary = to_digits(self.secondary, 16, false);
        text.append(secondary.as_str());
        proof {
            reveal_strlit(":");
        }
        assert(text@ =~= display_of(*self));
        text
    }
}

impl std::str::FromStr for TreeId {
    type Err = ParseTreeIdError;

    fn from_str(s: &str) -> (r: Result<Self, Self::Err>)
        ensures
            r == match parse_tree_id(s@) {
                Some(id) => Ok::<TreeId, ParseTreeIdError>(id),
                None => Err(ParseTreeIdError),
            },
    {
        TreeId::parse(s)
    }
}

} // verus!
