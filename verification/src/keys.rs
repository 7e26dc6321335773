//! Sort keys: numbers in either direction, and sequences in lexicographic
//! order.

use vstd::prelude::*;

use crate::sorting::SortKey;

verus! {

/// `a` comes no later than `b` in lexicographic order: at the first place
/// where they differ `a` holds the smaller unit, or `a` is a prefix of `b`.
pub open spec fn lex_le(a: Seq<u64>, b: Seq<u64>) -> bool
    decreases a.len(),
{
    if a.len() == 0 {
        true
    } else if b.len() == 0 {
        false
    } else if a[0] != b[0] {
        a[0] < b[0]
    } else {
        lex_le(a.drop_first(), b.drop_first())
    }
}

pub proof fn lemma_lex_total(a: Seq<u64>, b: Seq<u64>)
    ensures
        lex_le(a, b) || lex_le(b, a),
    decreases a.len(),
{
    if a.len() > 0 && b.len() > 0 && a[0] == b[0] {
        lemma_lex_total(a.drop_first(), b.drop_first());
    }
}

pub proof fn lemma_lex_transitive(a: Seq<u64>, b: Seq<u64>, c: Seq<u64>)
    requires
        lex_le(a, b),
        lex_le(b, c),
    ensures
        lex_le(a, c),
    decreases a.len(),
{
    if a.len() > 0 && b.len() > 0 && c.len() > 0 && a[0] == b[0] && b[0] == c[0] {
        lemma_lex_transitive(a.drop_first(), b.drop_first(), c.drop_first());
    }
}

/// Sequences that may come in either order are equal.
pub proof fn lemma_lex_antisymmetric(a: Seq<u64>, b: Seq<u64>)
    requires
        lex_le(a, b),
        lex_le(b, a),
    ensures
        a == b,
    decreases a.len(),
{
    if a.len() > 0 {
        lemma_lex_antisymmetric(a.drop_first(), b.drop_first());
        assert(a =~= seq![a[0]] + a.drop_first());
        assert(b =~= seq![b[0]] + b.drop_first());
    } else {
        assert(b.len() == 0);
        assert(a =~= b);
    }
}

pub proof fn lemma_lex_skip(a: Seq<u64>, b: Seq<u64>, i: int)
    requires
        0 <= i <= a.len(),
        i <= b.len(),
        forall|k: int| 0 <= k < i ==> a[k] == b[k],
    ensures
        lex_le(a, b) == lex_le(a.skip(i), b.skip(i)),
    decreases i,
{
    if i > 0 {
        lemma_lex_skip(a.drop_first(), b.drop_first(), i - 1);
        assert(a.drop_first().skip(i - 1) =~= a.skip(i));
        assert(b.drop_first().skip(i - 1) =~= b.skip(i));
    } else {
        assert(a.skip(0) =~= a);
        assert(b.skip(0) =~= b);
    }
}

/// A sequence of units, ordered lexicographically.
pub struct Lex {
    pub units: Vec<u64>,
}

impl SortKey for Lex {
    open spec fn key_le(&self, other: &Self) -> bool {
        lex_le(self.units@, other.units@)
    }

    proof fn lemma_key_total(a: &Self, b: &Self) {
        lemma_lex_total(a.units@, b.units@);
    }

    proof fn lemma_key_transitive(a: &Self, b: &Self, c: &Self) {
        lemma_lex_transitive(a.units@, b.units@, c.units@);
    }

    fn le(&self, other: &Self) -> (r: bool) {
        let a = &self.units;
        let b = &other.units;
        let mut i: usize = 0;
        while i < a.len() && i < b.len() && a[i] == b[i]
            invariant
                i <= a@.len(),
                i <= b@.len(),
                forall|k: int| 0 <= k < i ==> a@[k] == b@[k],
            decreases a@.len() - i,
        {
            i = i + 1;
        }
        proof {
            lemma_lex_skip(a@, b@, i as int);
        }
        if i == a.len() {
            true
        } else if i == b.len() {
            false
        } else {
            a[i] < b[i]
        }
    }
}

/// A number, smaller first.
pub struct Ascending(pub u64);

impl SortKey for Ascending {
    open spec fn key_le(&self, other: &Self) -> bool {
        self.0 <= other.0
    }

    proof fn lemma_key_total(a: &Self, b: &Self) {
    }

    proof fn lemma_key_transitive(a: &Self, b: &Self, c: &Self) {
    }

    fn le(&self, other: &Self) -> (r: bool) {
        self.0 <= other.0
    }
}

/// A number, larger first.
pub struct Descending(pub u64);

impl SortKey for Descending {
    open spec fn key_le(&self, other: &Self) -> bool {
        self.0 >= other.0
    }

    proof fn lemma_key_total(a: &Self, b: &Self) {
    }

    proof fn lemma_key_transitive(a: &Self, b: &Self, c: &Self) {
    }

    fn le(&self, other: &Self) -> (r: bool) {
        self.0 >= other.0
    }
}

/// The characters of a text as units, each one above its code point, so
/// that 0 sorts before every character.
pub open spec fn text_units(s: Seq<char>) -> Seq<u64> {
    s.map_values(|c: char| ((c as u32) as u64 + 1) as u64)
}

proof fn lemma_char_unit_injective(x: char, y: char)
    requires
        ((x as u32) as u64 + 1) as u64 == ((y as u32) as u64 + 1) as u64,
    ensures
        x == y,
{
    let xu: u32 = x as u32;
    let yu: u32 = y as u32;
    assert(((xu as u64) + 1) as u64 == (xu as u64) + 1);
    assert(((yu as u64) + 1) as u64 == (yu as u64) + 1);
    assert(xu == yu);
}

/// Equal units come from equal texts.
pub proof fn lemma_text_units_injective(a: Seq<char>, b: Seq<char>)
    requires
        text_units(a) == text_units(b),
    ensures
        a == b,
{
    assert(a.len() == text_units(a).len());
    assert(b.len() == text_units(b).len());
    assert forall|k: int| 0 <= k < a.len() implies a[k] == b[k] by {
        assert(text_units(a)[k] == text_units(b)[k]);
        assert(text_units(a)[k] == ((a[k] as u32) as u64 + 1) as u64);
        assert(text_units(b)[k] == ((b[k] as u32) as u64 + 1) as u64);
        lemma_char_unit_injective(a[k], b[k]);
    }
    assert(a =~= b);
}

/// The lexicographic key of a text.
pub fn text_key(s: &str) -> (k: Lex)
    ensures
        k.units@ == text_units(s@),
{
    let v = crate::paths::chars_of(s);
    let mut units: Vec<u64> = Vec::new();
    let mut i: usize = 0;
    while i < v.len()
        invariant
            i <= v@.len(),
            v@ == s@,
            units@ == text_units(v@.take(i as int)),
        decreases v@.len() - i,
    {
        let c = v[i];
        units.push((c as u32) as u64 + 1);
        i = i + 1;
        assert(units@ =~= text_units(v@.take(i as int)));
    }
    assert(v@.take(i as int) =~= v@);
    Lex { units }
}

/// Text keys are in the same class exactly when the texts are equal.
pub proof fn lemma_text_key_equiv(a: Lex, b: Lex, sa: Seq<char>, sb: Seq<char>)
    requires
        a.units@ == text_units(sa),
        b.units@ == text_units(sb),
    ensures
        crate::sorting::key_equiv(a, b) <==> sa == sb,
{
    if crate::sorting::key_equiv(a, b) {
        lemma_lex_antisymmetric(a.units@, b.units@);
        lemma_text_units_injective(sa, sb);
    }
    if sa == sb {
        lemma_lex_total(a.units@, a.units@);
    }
}

} // verus!
