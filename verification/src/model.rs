//! The mathematical model of the input buffer: a unit is a pair of sequences
//! `(raw, kana)`, the buffer a sequence of units, and every edit a function on
//! such sequences. The executable code in `input_buffer` is proved against the
//! functions defined here.
use vstd::prelude::*;

verus! {

/// One unit: the raw keystrokes (`.0`) and the kana they produced (`.1`).
pub type UnitModel = (Seq<char>, Seq<char>);

/// The concatenation of the kana of every unit, in order: the preedit text.
pub open spec fn kana_of(us: Seq<UnitModel>) -> Seq<char>
    decreases us.len(),
{
    if us.len() == 0 {
        Seq::empty()
    } else {
        kana_of(us.drop_last()) + us.last().1
    }
}

/// The concatenation of the raw keystrokes of every unit, in order.
pub open spec fn raw_of(us: Seq<UnitModel>) -> Seq<char>
    decreases us.len(),
{
    if us.len() == 0 {
        Seq::empty()
    } else {
        raw_of(us.drop_last()) + us.last().0
    }
}

/// The number of kana characters shown by the first `j` units.
pub open spec fn prefix_len(us: Seq<UnitModel>, j: int) -> nat {
    kana_of(us.take(j)).len()
}

/// Every unit shows at least one kana character.
pub open spec fn units_wf(us: Seq<UnitModel>) -> bool {
    forall|i: int| 0 <= i < us.len() ==> #[trigger] us[i].1.len() > 0
}

/// Every unit is literal: its raw keystrokes are its kana.
pub open spec fn all_literal(us: Seq<UnitModel>) -> bool {
    forall|i: int| 0 <= i < us.len() ==> #[trigger] us[i].0 == us[i].1
}

/// The units that literal text becomes: one per character, with raw == kana.
pub open spec fn singletons(k: Seq<char>) -> Seq<UnitModel> {
    Seq::new(k.len(), |j: int| (seq![k[j]], seq![k[j]]))
}

/// `us` with unit `m` replaced by the singleton units of its kana.
pub open spec fn degrade_at(us: Seq<UnitModel>, m: int) -> Seq<UnitModel> {
    us.take(m) + singletons(us[m].1) + us.skip(m + 1)
}

/// The units after making sure a unit boundary exists at kana position `pos`:
/// the unit that `pos` falls strictly inside, if any, is degraded into
/// singletons; all other units stay as they are.
pub open spec fn split_units(us: Seq<UnitModel>, pos: int) -> Seq<UnitModel>
    decreases us.len(),
{
    if us.len() == 0 || pos <= 0 {
        us
    } else if pos < us[0].1.len() {
        singletons(us[0].1) + us.skip(1)
    } else {
        seq![us[0]] + split_units(us.skip(1), pos - us[0].1.len())
    }
}

/// The index, in `split_units(us, pos)`, of the first unit that starts at kana
/// position `pos` (the number of units when `pos` is at or past the end).
pub open spec fn split_index(us: Seq<UnitModel>, pos: int) -> int
    decreases us.len(),
{
    if us.len() == 0 || pos <= 0 {
        0
    } else if pos < us[0].1.len() {
        pos
    } else {
        1 + split_index(us.skip(1), pos - us[0].1.len())
    }
}

/// The units after placing the units `new` at kana position `pos`.
pub open spec fn insert_at(us: Seq<UnitModel>, pos: int, new: Seq<UnitModel>) -> Seq<UnitModel> {
    let s = split_units(us, pos);
    let i = split_index(us, pos);
    s.take(i) + new + s.skip(i)
}

/// The units after isolating the kana character at `pos` into a unit of its
/// own (boundaries at `pos + 1`, then at `pos`) and dropping that unit.
pub open spec fn remove_at(us: Seq<UnitModel>, pos: int) -> Seq<UnitModel> {
    let s1 = split_units(us, pos + 1);
    let s2 = split_units(s1, pos);
    s2.remove(split_index(s1, pos))
}

/// The text `t` with `ins` placed at position `pos`, clamped to the end.
pub open spec fn splice_text(t: Seq<char>, pos: int, ins: Seq<char>) -> Seq<char> {
    let c = min_int(pos, t.len() as int);
    t.take(c) + ins + t.skip(c)
}

/// The smaller of two integers.
pub open spec fn min_int(a: int, b: int) -> int {
    if a <= b {
        a
    } else {
        b
    }
}

// ---------------------------------------------------------------------------
// Lemmas on concatenation
// ---------------------------------------------------------------------------

pub proof fn lemma_kana_append(a: Seq<UnitModel>, b: Seq<UnitModel>)
    ensures
        kana_of(a + b) == kana_of(a) + kana_of(b),
        raw_of(a + b) == raw_of(a) + raw_of(b),
    decreases b.len(),
{
    if b.len() == 0 {
        assert(a + b =~= a);
        assert(kana_of(a) + kana_of(b) =~= kana_of(a));
        assert(raw_of(a) + raw_of(b) =~= raw_of(a));
    } else {
        assert((a + b).drop_last() =~= a + b.drop_last());
        assert((a + b).last() == b.last());
        lemma_kana_append(a, b.drop_last());
        assert(kana_of(a) + kana_of(b.drop_last()) + b.last().1 =~= kana_of(a) + (kana_of(
            b.drop_last(),
        ) + b.last().1));
        assert(raw_of(a) + raw_of(b.drop_last()) + b.last().0 =~= raw_of(a) + (raw_of(
            b.drop_last(),
        ) + b.last().0));
    }
}

pub proof fn lemma_kana_single(u: UnitModel)
    ensures
        kana_of(seq![u]) == u.1,
        raw_of(seq![u]) == u.0,
{
    assert(seq![u].drop_last() =~= Seq::<UnitModel>::empty());
    assert(seq![u].last() == u);
    assert(kana_of(Seq::<UnitModel>::empty()) =~= Seq::<char>::empty());
    assert(raw_of(Seq::<UnitModel>::empty()) =~= Seq::<char>::empty());
    assert(Seq::<char>::empty() + u.1 =~= u.1);
    assert(Seq::<char>::empty() + u.0 =~= u.0);
}

pub proof fn lemma_kana_cons(u: UnitModel, rest: Seq<UnitModel>)
    ensures
        kana_of(seq![u] + rest) == u.1 + kana_of(rest),
        raw_of(seq![u] + rest) == u.0 + raw_of(rest),
{
    lemma_kana_append(seq![u], rest);
    lemma_kana_single(u);
}

pub proof fn lemma_kana_singletons(k: Seq<char>)
    ensures
        kana_of(singletons(k)) == k,
        raw_of(singletons(k)) == k,
    decreases k.len(),
{
    if k.len() == 0 {
        assert(k =~= Seq::<char>::empty());
    } else {
        assert(singletons(k).drop_last() =~= singletons(k.drop_last()));
        lemma_kana_singletons(k.drop_last());
        assert(k.drop_last() + seq![k.last()] =~= k);
    }
}

/// Splitting a sequence of units in three parts splits its text likewise.
pub proof fn lemma_kana_three(us: Seq<UnitModel>, i: int)
    requires
        0 <= i < us.len(),
    ensures
        kana_of(us) == kana_of(us.take(i)) + us[i].1 + kana_of(us.skip(i + 1)),
        raw_of(us) == raw_of(us.take(i)) + us[i].0 + raw_of(us.skip(i + 1)),
{
    assert(us =~= us.take(i) + (seq![us[i]] + us.skip(i + 1)));
    lemma_kana_append(us.take(i), seq![us[i]] + us.skip(i + 1));
    lemma_kana_cons(us[i], us.skip(i + 1));
    assert(kana_of(us.take(i)) + (us[i].1 + kana_of(us.skip(i + 1))) =~= kana_of(us.take(i))
        + us[i].1 + kana_of(us.skip(i + 1)));
    assert(raw_of(us.take(i)) + (us[i].0 + raw_of(us.skip(i + 1))) =~= raw_of(us.take(i))
        + us[i].0 + raw_of(us.skip(i + 1)));
}

// ---------------------------------------------------------------------------
// Lemmas on prefix lengths
// ---------------------------------------------------------------------------

pub proof fn lemma_prefix_zero(us: Seq<UnitModel>)
    ensures
        prefix_len(us, 0) == 0,
{
    assert(us.take(0) =~= Seq::<UnitModel>::empty());
}

pub proof fn lemma_prefix_full(us: Seq<UnitModel>)
    ensures
        prefix_len(us, us.len() as int) == kana_of(us).len(),
{
    assert(us.take(us.len() as int) =~= us);
}

pub proof fn lemma_prefix_step(us: Seq<UnitModel>, j: int)
    requires
        0 <= j < us.len(),
    ensures
        kana_of(us.take(j + 1)) == kana_of(us.take(j)) + us[j].1,
        raw_of(us.take(j + 1)) == raw_of(us.take(j)) + us[j].0,
        prefix_len(us, j + 1) == prefix_len(us, j) + us[j].1.len(),
{
    assert(us.take(j + 1).drop_last() =~= us.take(j));
}

/// With non-empty units, prefix lengths grow by at least one per unit.
pub proof fn lemma_prefix_mono(us: Seq<UnitModel>, j: int, k: int)
    requires
        units_wf(us),
        0 <= j <= k <= us.len(),
    ensures
        prefix_len(us, j) + (k - j) <= prefix_len(us, k),
    decreases k - j,
{
    if j < k {
        lemma_prefix_mono(us, j, k - 1);
        lemma_prefix_step(us, k - 1);
        assert(us[k - 1].1.len() > 0);
    }
}

/// The prefix lengths of `seq![u] + rest`, shifted by one unit.
pub proof fn lemma_prefix_cons(u: UnitModel, rest: Seq<UnitModel>, j: int)
    requires
        0 <= j <= rest.len(),
    ensures
        prefix_len(seq![u] + rest, j + 1) == u.1.len() + prefix_len(rest, j),
        kana_of((seq![u] + rest).take(j + 1)) == u.1 + kana_of(rest.take(j)),
{
    assert((seq![u] + rest).take(j + 1) =~= seq![u] + rest.take(j));
    lemma_kana_cons(u, rest.take(j));
}

// ---------------------------------------------------------------------------
// Lemmas on singletons and degradation
// ---------------------------------------------------------------------------

pub proof fn lemma_singletons_wf(k: Seq<char>)
    ensures
        units_wf(singletons(k)),
        all_literal(singletons(k)),
        singletons(k).len() == k.len(),
{
}

pub proof fn lemma_wf_append(a: Seq<UnitModel>, b: Seq<UnitModel>)
    requires
        units_wf(a),
        units_wf(b),
    ensures
        units_wf(a + b),
{
    assert forall|i: int| 0 <= i < (a + b).len() implies #[trigger] (a + b)[i].1.len() > 0 by {
        if i < a.len() {
            assert((a + b)[i] == a[i]);
        } else {
            assert((a + b)[i] == b[i - a.len()]);
        }
    }
}

pub proof fn lemma_wf_sub(us: Seq<UnitModel>, i: int, j: int)
    requires
        units_wf(us),
        0 <= i <= j <= us.len(),
    ensures
        units_wf(us.subrange(i, j)),
        units_wf(us.take(i)),
        units_wf(us.skip(i)),
{
    assert forall|k: int| 0 <= k < us.subrange(i, j).len() implies #[trigger] us.subrange(
        i,
        j,
    )[k].1.len() > 0 by {
        assert(us.subrange(i, j)[k] == us[i + k]);
    }
    assert forall|k: int| 0 <= k < us.skip(i).len() implies #[trigger] us.skip(i)[k].1.len()
        > 0 by {
        assert(us.skip(i)[k] == us[i + k]);
    }
}

/// In `degrade_at(us, m)`, the boundary that followed unit `m` is still there.
pub proof fn lemma_degrade_prefix(us: Seq<UnitModel>, m: int)
    requires
        0 <= m < us.len(),
    ensures
        prefix_len(degrade_at(us, m), m + us[m].1.len()) == prefix_len(us, m + 1),
        kana_of(degrade_at(us, m)) == kana_of(us),
        degrade_at(us, m).len() == us.len() - 1 + us[m].1.len(),
{
    let d = degrade_at(us, m);
    let l = us[m].1.len();
    assert(d.take(m + l) =~= us.take(m) + singletons(us[m].1));
    lemma_kana_append(us.take(m), singletons(us[m].1));
    lemma_kana_singletons(us[m].1);
    lemma_prefix_step(us, m);
    lemma_kana_append(us.take(m) + singletons(us[m].1), us.skip(m + 1));
    lemma_kana_three(us, m);
}

// ---------------------------------------------------------------------------
// The split
// ---------------------------------------------------------------------------

/// What `split_units(us, pos)` does, given the index `m` of the unit that
/// `pos` falls strictly inside (`-1` when there is none): the text is kept,
/// the units stay valid, the returned index starts at `pos` (or at the end),
/// and only unit `m`, if any, is degraded into singletons.
pub open spec fn split_facts(us: Seq<UnitModel>, pos: int, m: int) -> bool {
    let s = split_units(us, pos);
    let i = split_index(us, pos);
    let total = kana_of(us).len() as int;
    &&& kana_of(s) == kana_of(us)
    &&& raw_of(s) == if m == -1 {
        raw_of(us)
    } else {
        raw_of(us.take(m)) + us[m].1 + raw_of(us.skip(m + 1))
    }
    &&& units_wf(s)
    &&& 0 <= i <= s.len()
    &&& prefix_len(s, i) == min_int(pos, total)
    &&& (pos >= total ==> i == s.len())
    &&& (m == -1 || 0 <= m < us.len())
    &&& (m == -1 ==> s == us && (pos <= total ==> prefix_len(us, i) == pos))
    &&& (m != -1 ==> {
        &&& prefix_len(us, m) < pos < prefix_len(us, m + 1)
        &&& s == degrade_at(us, m)
        &&& i == m + pos - prefix_len(us, m)
    })
}

proof fn lemma_split_base(us: Seq<UnitModel>, pos: int)
    requires
        units_wf(us),
        pos >= 0,
        us.len() == 0 || pos <= 0,
    ensures
        split_facts(us, pos, -1),
{
    lemma_prefix_zero(us);
    lemma_prefix_full(us);
    lemma_prefix_mono(us, 0, us.len() as int);
}

proof fn lemma_split_inside(us: Seq<UnitModel>, pos: int)
    requires
        units_wf(us),
        us.len() > 0,
        0 < pos < us[0].1.len(),
    ensures
        split_facts(us, pos, 0),
{
    let u = us[0];
    let rest = us.skip(1);
    let s = split_units(us, pos);
    assert(us =~= seq![u] + rest);
    lemma_kana_cons(u, rest);
    lemma_wf_sub(us, 1, us.len() as int);
    lemma_kana_singletons(u.1);
    lemma_singletons_wf(u.1);
    lemma_kana_append(singletons(u.1), rest);
    lemma_wf_append(singletons(u.1), rest);
    assert(s.take(pos) =~= singletons(u.1.take(pos)));
    lemma_kana_singletons(u.1.take(pos));
    assert(us.take(0) =~= Seq::<UnitModel>::empty());
    assert(degrade_at(us, 0) =~= s);
    lemma_prefix_zero(us);
    lemma_prefix_step(us, 0);
    assert(raw_of(us.take(0)) =~= Seq::<char>::empty());
    assert(Seq::<char>::empty() + u.1 + raw_of(rest) =~= u.1 + raw_of(rest));
}

proof fn lemma_split_later(us: Seq<UnitModel>, pos: int, m2: int)
    requires
        units_wf(us),
        us.len() > 0,
        pos >= us[0].1.len(),
        split_facts(us.skip(1), pos - us[0].1.len(), m2),
    ensures
        split_facts(us, pos, if m2 == -1 { -1 } else { m2 + 1 }),
{
    let u = us[0];
    let rest = us.skip(1);
    let p2 = pos - u.1.len();
    let s = split_units(us, pos);
    let s2 = split_units(rest, p2);
    let i2 = split_index(rest, p2);
    assert(us =~= seq![u] + rest);
    lemma_kana_cons(u, rest);
    lemma_wf_sub(us, 1, us.len() as int);
    assert(s == seq![u] + s2);
    lemma_kana_cons(u, s2);
    assert(units_wf(seq![u]));
    lemma_wf_append(seq![u], s2);
    lemma_prefix_cons(u, s2, i2);
    lemma_prefix_full(rest);
    lemma_prefix_full(s2);
    if m2 == -1 {
        lemma_prefix_cons(u, rest, i2);
        assert(s =~= us);
    } else {
        lemma_split_later_degrade(us, pos, m2);
    }
}

proof fn lemma_split_later_degrade(us: Seq<UnitModel>, pos: int, m2: int)
    requires
        units_wf(us),
        us.len() > 0,
        pos >= us[0].1.len(),
        0 <= m2 < us.len() - 1,
        prefix_len(us.skip(1), m2) < pos - us[0].1.len() < prefix_len(us.skip(1), m2 + 1),
        split_units(us.skip(1), pos - us[0].1.len()) == degrade_at(us.skip(1), m2),
    ensures
        prefix_len(us, m2 + 1) < pos < prefix_len(us, m2 + 2),
        split_units(us, pos) == degrade_at(us, m2 + 1),
        prefix_len(us, m2 + 1) == us[0].1.len() + prefix_len(us.skip(1), m2),
        raw_of(us.take(m2 + 1)) + us[m2 + 1].1 + raw_of(us.skip(m2 + 2)) == us[0].0 + (raw_of(
            us.skip(1).take(m2),
        ) + us.skip(1)[m2].1 + raw_of(us.skip(1).skip(m2 + 1))),
{
    let u = us[0];
    let rest = us.skip(1);
    assert(us =~= seq![u] + rest);
    lemma_prefix_cons(u, rest, m2);
    lemma_prefix_cons(u, rest, m2 + 1);
    assert(degrade_at(us, m2 + 1) =~= seq![u] + degrade_at(rest, m2));
    assert(us.take(m2 + 1) =~= seq![u] + rest.take(m2));
    assert(us.skip(m2 + 2) =~= rest.skip(m2 + 1));
    lemma_kana_cons(u, rest.take(m2));
    assert(u.0 + raw_of(rest.take(m2)) + rest[m2].1 + raw_of(rest.skip(m2 + 1)) =~= u.0 + (
    raw_of(rest.take(m2)) + rest[m2].1 + raw_of(rest.skip(m2 + 1))));
}

/// What `split_units` does (see `split_facts`); returns the index of the unit
/// that was degraded, or `-1` when the units are unchanged.
pub proof fn lemma_split(us: Seq<UnitModel>, pos: int) -> (m: int)
    requires
        units_wf(us),
        pos >= 0,
    ensures
        split_facts(us, pos, m),
    decreases us.len(),
{
    if us.len() == 0 || pos <= 0 {
        lemma_split_base(us, pos);
        -1
    } else if pos < us[0].1.len() {
        lemma_split_inside(us, pos);
        0
    } else {
        lemma_wf_sub(us, 1, us.len() as int);
        let m2 = lemma_split(us.skip(1), pos - us[0].1.len());
        lemma_split_later(us, pos, m2);
        if m2 == -1 {
            -1
        } else {
            m2 + 1
        }
    }
}

// ---------------------------------------------------------------------------
// Insertion and removal
// ---------------------------------------------------------------------------

/// Placing units at kana position `pos` places their text at `pos` (clamped to
/// the end of the text), and keeps the units valid.
pub proof fn lemma_insert_at(us: Seq<UnitModel>, pos: int, new: Seq<UnitModel>)
    requires
        units_wf(us),
        pos >= 0,
    ensures
        ({
            let t = kana_of(us);
            let c = min_int(pos, t.len() as int);
            kana_of(insert_at(us, pos, new)) == t.take(c) + kana_of(new) + t.skip(c)
        }),
        units_wf(new) ==> units_wf(insert_at(us, pos, new)),
{
    let t = kana_of(us);
    let c = min_int(pos, t.len() as int);
    let s = split_units(us, pos);
    let i = split_index(us, pos);
    let m = lemma_split(us, pos);
    assert(s =~= s.take(i) + s.skip(i));
    lemma_kana_append(s.take(i), s.skip(i));
    assert(kana_of(s.take(i)) =~= t.take(c));
    assert(kana_of(s.skip(i)) =~= t.skip(c));
    lemma_kana_append(s.take(i), new);
    lemma_kana_append(s.take(i) + new, s.skip(i));
    if units_wf(new) {
        lemma_wf_sub(s, i, s.len() as int);
        lemma_wf_append(s.take(i), new);
        lemma_wf_append(s.take(i) + new, s.skip(i));
    }
}

/// In a valid sequence of units, the unit that starts at kana position `p`
/// and has a boundary at `p + 1` after it holds exactly one character.
proof fn lemma_one_char_unit(s: Seq<UnitModel>, i: int, j: int, p: int)
    requires
        units_wf(s),
        0 <= i <= s.len(),
        0 <= j <= s.len(),
        prefix_len(s, i) == p,
        prefix_len(s, j) == p + 1,
    ensures
        i < j,
        i < s.len(),
        s[i].1.len() == 1,
{
    if j <= i {
        lemma_prefix_mono(s, j, i);
    }
    lemma_prefix_mono(s, i + 1, j);
    lemma_prefix_step(s, i);
}

/// Removing the kana character at `p` removes exactly that character from the
/// text, and keeps the units valid.
pub proof fn lemma_remove_at(us: Seq<UnitModel>, p: int)
    requires
        units_wf(us),
        0 <= p < kana_of(us).len(),
    ensures
        ({
            let s1 = split_units(us, p + 1);
            let s2 = split_units(s1, p);
            let i = split_index(s1, p);
            &&& 0 <= i < s2.len()
            &&& s2[i].1 == seq![kana_of(us)[p]]
            &&& units_wf(s1)
            &&& units_wf(s2)
            &&& kana_of(s2) == kana_of(us)
        }),
        kana_of(remove_at(us, p)) == kana_of(us).remove(p),
        units_wf(remove_at(us, p)),
{
    let t = kana_of(us);
    let s1 = split_units(us, p + 1);
    let i1 = split_index(us, p + 1);
    let m1 = lemma_split(us, p + 1);
    let s2 = split_units(s1, p);
    let i = split_index(s1, p);
    let m2 = lemma_split(s1, p);
    // a boundary at p + 1 survives the second split
    if m2 == -1 {
        lemma_one_char_unit(s2, i, i1, p);
    } else {
        if i1 <= m2 {
            lemma_prefix_mono(s1, i1, m2);
        }
        if i1 > m2 + 1 {
            lemma_prefix_mono(s1, m2 + 1, i1);
        }
        assert(i1 == m2 + 1);
        lemma_degrade_prefix(s1, m2);
        lemma_one_char_unit(s2, i, m2 + s1[m2].1.len(), p);
    }
    lemma_kana_three(s2, i);
    lemma_prefix_step(s2, i);
    assert(kana_of(s2)[p] == s2[i].1[0]);
    assert(s2[i].1 =~= seq![t[p]]);
    let r = s2.remove(i);
    assert(r =~= s2.take(i) + s2.skip(i + 1));
    lemma_kana_append(s2.take(i), s2.skip(i + 1));
    assert(t.remove(p) =~= kana_of(s2.take(i)) + kana_of(s2.skip(i + 1)));
    lemma_wf_sub(s2, i + 1, s2.len() as int);
    lemma_wf_sub(s2, i, s2.len() as int);
    lemma_wf_append(s2.take(i), s2.skip(i + 1));
}

// ---------------------------------------------------------------------------
// Splitting at boundaries and inside units
// ---------------------------------------------------------------------------

/// Prefix lengths of valid units are injective: two indices with the same
/// prefix length are equal.
pub proof fn lemma_prefix_injective(us: Seq<UnitModel>, i: int, j: int)
    requires
        units_wf(us),
        0 <= i <= us.len(),
        0 <= j <= us.len(),
        prefix_len(us, i) == prefix_len(us, j),
    ensures
        i == j,
{
    if i < j {
        lemma_prefix_mono(us, i, j);
    } else if j < i {
        lemma_prefix_mono(us, j, i);
    }
}

/// No unit boundary lies strictly inside a unit.
pub proof fn lemma_no_boundary_inside(us: Seq<UnitModel>, m: int, k: int)
    requires
        units_wf(us),
        0 <= m < us.len(),
        0 <= k <= us.len(),
        prefix_len(us, m) < prefix_len(us, k),
    ensures
        prefix_len(us, m + 1) <= prefix_len(us, k),
{
    if k <= m {
        lemma_prefix_mono(us, k, m);
    } else {
        lemma_prefix_mono(us, m + 1, k);
    }
}

/// Splitting at an existing unit boundary changes nothing and finds that
/// boundary.
pub proof fn lemma_split_at_boundary(us: Seq<UnitModel>, j: int)
    requires
        units_wf(us),
        0 <= j <= us.len(),
    ensures
        split_units(us, prefix_len(us, j) as int) == us,
        split_index(us, prefix_len(us, j) as int) == j,
{
    let q = prefix_len(us, j) as int;
    let m = lemma_split(us, q);
    lemma_prefix_mono(us, j, us.len() as int);
    lemma_prefix_full(us);
    if m != -1 {
        lemma_no_boundary_inside(us, m, j);
    }
    lemma_prefix_injective(us, split_index(us, q), j);
}

/// Splitting at or past the end of the text changes nothing and finds the end.
pub proof fn lemma_split_beyond(us: Seq<UnitModel>, pos: int)
    requires
        units_wf(us),
        pos >= kana_of(us).len(),
    ensures
        split_units(us, pos) == us,
        split_index(us, pos) == us.len(),
{
    let m = lemma_split(us, pos);
    if m != -1 {
        lemma_prefix_mono(us, m + 1, us.len() as int);
        lemma_prefix_full(us);
    }
}

/// Splitting strictly inside unit `m` degrades exactly that unit.
pub proof fn lemma_split_inside_unit(us: Seq<UnitModel>, m: int, q: int)
    requires
        units_wf(us),
        0 <= m < us.len(),
        prefix_len(us, m) < q < prefix_len(us, m + 1),
    ensures
        split_units(us, q) == degrade_at(us, m),
        split_index(us, q) == m + q - prefix_len(us, m),
{
    let m1 = lemma_split(us, q);
    lemma_prefix_mono(us, m + 1, us.len() as int);
    lemma_prefix_full(us);
    if m1 == -1 {
        lemma_no_boundary_inside(us, m, split_index(us, q));
    } else if m1 < m {
        lemma_prefix_mono(us, m1 + 1, m);
    } else if m1 > m {
        lemma_prefix_mono(us, m + 1, m1);
    }
}

/// In `degrade_at(us, m)`, every character of unit `m` starts a unit.
pub proof fn lemma_degrade_prefix_k(us: Seq<UnitModel>, m: int, k: int)
    requires
        0 <= m < us.len(),
        0 <= k <= us[m].1.len(),
    ensures
        prefix_len(degrade_at(us, m), m + k) == prefix_len(us, m) + k,
{
    let d = degrade_at(us, m);
    assert(d.take(m + k) =~= us.take(m) + singletons(us[m].1.take(k)));
    lemma_kana_append(us.take(m), singletons(us[m].1.take(k)));
    lemma_kana_singletons(us[m].1.take(k));
}

} // verus!
