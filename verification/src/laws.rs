//! Properties of the buffer that span several operations, stated over the
//! model functions that the operations' contracts use.
use vstd::prelude::*;
use crate::model::UnitModel;
use crate::model::kana_of;
use crate::model::raw_of;
use crate::model::units_wf;
use crate::model::all_literal;
use crate::model::singletons;
use crate::model::degrade_at;
use crate::model::split_units;
use crate::model::split_index;
use crate::model::insert_at;
use crate::model::remove_at;
use crate::model::prefix_len;
use crate::model::lemma_split;
use crate::model::lemma_insert_at;
use crate::model::lemma_remove_at;
use crate::model::lemma_kana_singletons;
use crate::model::lemma_singletons_wf;
use crate::model::lemma_kana_append;
use crate::model::lemma_prefix_full;
use crate::model::lemma_prefix_mono;
use crate::model::lemma_prefix_step;
use crate::model::lemma_split_at_boundary;
use crate::model::lemma_split_beyond;
use crate::model::lemma_split_inside_unit;
use crate::model::lemma_degrade_prefix_k;

verus! {

/// Making a boundary at any kana position keeps the text, and changes the
/// units in one way only: either not at all, or by degrading the one unit that
/// the position falls strictly inside into singleton units, every other unit
/// (and so its raw keystrokes) staying as it was.
pub proof fn law_split_degrades_only_the_bisected_unit(us: Seq<UnitModel>, pos: int)
    requires
        units_wf(us),
        pos >= 0,
    ensures
        kana_of(split_units(us, pos)) == kana_of(us),
        units_wf(split_units(us, pos)),
        split_units(us, pos) == us || exists|m: int|
            0 <= m < us.len() && prefix_len(us, m) < pos < prefix_len(us, m + 1)
                && split_units(us, pos) == #[trigger] degrade_at(us, m),
{
    let m = lemma_split(us, pos);
    if m != -1 {
        assert(split_units(us, pos) == degrade_at(us, m));
    }
}

/// Typing at or past the end of the text appends: every earlier unit, with
/// its raw keystrokes, is kept as it was.
pub proof fn law_insert_at_end_appends(us: Seq<UnitModel>, pos: int, new: Seq<UnitModel>)
    requires
        units_wf(us),
        pos >= kana_of(us).len(),
    ensures
        insert_at(us, pos, new) == us + new,
        raw_of(insert_at(us, pos, new)) == raw_of(us) + raw_of(new),
        kana_of(insert_at(us, pos, new)) == kana_of(us) + kana_of(new),
{
    let m = lemma_split(us, pos);
    let s = split_units(us, pos);
    let i = split_index(us, pos);
    if m != -1 {
        lemma_prefix_mono(us, m + 1, us.len() as int);
        lemma_prefix_full(us);
    }
    assert(s.take(i) =~= us);
    assert(s.skip(i) =~= Seq::<UnitModel>::empty());
    assert(insert_at(us, pos, new) =~= us + new);
    lemma_kana_append(us, new);
}

/// Inserting one literal character at a position inside the text (or at its
/// end) and then removing the character at that position gives the original
/// text back, and the removed character is the inserted one. With the cursor
/// at `pos`, this is `insert` of one character followed by
/// `remove_char_before_cursor`.
pub proof fn law_backspace_undoes_insert(us: Seq<UnitModel>, pos: int, c: char)
    requires
        units_wf(us),
        0 <= pos <= kana_of(us).len(),
    ensures
        kana_of(insert_at(us, pos, singletons(seq![c]))).len() == kana_of(us).len() + 1,
        kana_of(insert_at(us, pos, singletons(seq![c])))[pos] == c,
        kana_of(remove_at(insert_at(us, pos, singletons(seq![c])), pos)) == kana_of(us),
{
    let t = kana_of(us);
    let us1 = insert_at(us, pos, singletons(seq![c]));
    lemma_kana_singletons(seq![c]);
    lemma_singletons_wf(seq![c]);
    lemma_insert_at(us, pos, singletons(seq![c]));
    assert(kana_of(us1) == t.take(pos) + seq![c] + t.skip(pos));
    lemma_remove_at(us1, pos);
    assert(kana_of(us1).remove(pos) =~= t);
}

/// A buffer whose units are all literal (raw == kana) has raw text equal to
/// its kana text.
pub proof fn law_literal_raw_is_text(us: Seq<UnitModel>)
    requires
        all_literal(us),
    ensures
        raw_of(us) == kana_of(us),
    decreases us.len(),
{
    if us.len() > 0 {
        assert(all_literal(us.drop_last()));
        law_literal_raw_is_text(us.drop_last());
        assert(us.last() == us[us.len() - 1]);
    }
}

/// Literal edits keep a literal buffer literal: splitting, inserting literal
/// units (such as the units of literal text) and removing a character never
/// produce a unit with raw != kana.
pub proof fn law_literal_edits_stay_literal(us: Seq<UnitModel>, pos: int, new: Seq<UnitModel>)
    requires
        units_wf(us),
        all_literal(us),
        pos >= 0,
    ensures
        all_literal(split_units(us, pos)),
        all_literal(new) ==> all_literal(insert_at(us, pos, new)),
        pos < kana_of(us).len() ==> all_literal(remove_at(us, pos)),
{
    lemma_literal_split(us, pos);
    let s = split_units(us, pos);
    let i = split_index(us, pos);
    lemma_split(us, pos);
    lemma_literal_sub(s, i);
    if all_literal(new) {
        lemma_literal_append(s.take(i), new);
        lemma_literal_append(s.take(i) + new, s.skip(i));
    }
    if pos < kana_of(us).len() {
        lemma_literal_split(us, pos + 1);
        let s1 = split_units(us, pos + 1);
        lemma_split(us, pos + 1);
        lemma_literal_split(s1, pos);
        let s2 = split_units(s1, pos);
        let j = split_index(s1, pos);
        lemma_remove_at(us, pos);
        lemma_literal_sub(s2, j);
        lemma_literal_sub(s2, j + 1);
        assert(s2.remove(j) =~= s2.take(j) + s2.skip(j + 1));
        lemma_literal_append(s2.take(j), s2.skip(j + 1));
    }
}

proof fn lemma_literal_append(a: Seq<UnitModel>, b: Seq<UnitModel>)
    requires
        all_literal(a),
        all_literal(b),
    ensures
        all_literal(a + b),
{
    assert forall|i: int| 0 <= i < (a + b).len() implies #[trigger] (a + b)[i].0 == (a + b)[i].1 by {
        if i < a.len() {
            assert((a + b)[i] == a[i]);
        } else {
            assert((a + b)[i] == b[i - a.len()]);
        }
    }
}

proof fn lemma_literal_sub(us: Seq<UnitModel>, i: int)
    requires
        all_literal(us),
        0 <= i <= us.len(),
    ensures
        all_literal(us.take(i)),
        all_literal(us.skip(i)),
{
    assert forall|k: int| 0 <= k < us.skip(i).len() implies #[trigger] us.skip(i)[k].0 == us.skip(
        i,
    )[k].1 by {
        assert(us.skip(i)[k] == us[i + k]);
    }
}

proof fn lemma_literal_split(us: Seq<UnitModel>, pos: int)
    requires
        units_wf(us),
        all_literal(us),
        pos >= 0,
    ensures
        all_literal(split_units(us, pos)),
{
    let m = lemma_split(us, pos);
    if m != -1 {
        lemma_literal_sub(us, m);
        lemma_literal_sub(us, m + 1);
        lemma_singletons_wf(us[m].1);
        lemma_literal_append(us.take(m), singletons(us[m].1));
        lemma_literal_append(us.take(m) + singletons(us[m].1), us.skip(m + 1));
    }
}

/// Making a boundary at a position twice is the same as making it once: the
/// second split changes nothing and finds the same index.
pub proof fn law_split_twice_is_split_once(us: Seq<UnitModel>, pos: int)
    requires
        units_wf(us),
        pos >= 0,
    ensures
        split_units(split_units(us, pos), pos) == split_units(us, pos),
        split_index(split_units(us, pos), pos) == split_index(us, pos),
{
    let m = lemma_split(us, pos);
    let s = split_units(us, pos);
    let i = split_index(us, pos);
    if pos <= kana_of(us).len() {
        lemma_split_at_boundary(s, i);
    } else {
        lemma_split_beyond(s, pos);
    }
}

/// Removing the character at `p`, which lies in unit `m`, drops that unit when
/// it holds that one character only; otherwise the unit is replaced by literal
/// one-character units of its kana without that character. Every other unit
/// is kept as it was.
pub proof fn law_remove_at_direct(us: Seq<UnitModel>, p: int, m: int)
    requires
        units_wf(us),
        0 <= m < us.len(),
        prefix_len(us, m) <= p < prefix_len(us, m + 1),
    ensures
        us[m].1.len() == 1 ==> remove_at(us, p) == us.remove(m),
        us[m].1.len() > 1 ==> remove_at(us, p) == us.take(m) + singletons(
            us[m].1.remove(p - prefix_len(us, m)),
        ) + us.skip(m + 1),
{
    let a = prefix_len(us, m) as int;
    let k0 = us[m].1;
    let l = k0.len() as int;
    let off = p - a;
    lemma_prefix_step(us, m);
    if l == 1 {
        lemma_split_at_boundary(us, m + 1);
        lemma_split_at_boundary(us, m);
    } else {
        let d = degrade_at(us, m);
        if off == l - 1 {
            lemma_split_at_boundary(us, m + 1);
            lemma_split_inside_unit(us, m, p);
        } else {
            lemma_split_inside_unit(us, m, p + 1);
            lemma_split(us, p + 1);
            lemma_degrade_prefix_k(us, m, off);
            lemma_split_at_boundary(d, m + off);
        }
        assert(remove_at(us, p) == d.remove(m + off));
        assert(singletons(k0).remove(off) =~= singletons(k0.remove(off)));
        assert(d.remove(m + off) =~= us.take(m) + singletons(k0).remove(off) + us.skip(m + 1));
    }
}

/// Inserting literal text `a` and then literal text `b` right after it is the
/// same as inserting `a + b` at once (for non-empty `a` and `b`; an empty
/// insert changes nothing).
pub proof fn law_insert_concat(us: Seq<UnitModel>, pos: int, a: Seq<char>, b: Seq<char>)
    requires
        units_wf(us),
        pos >= 0,
    ensures
        insert_at(insert_at(us, pos, singletons(a)), pos + a.len(), singletons(b)) == insert_at(
            us,
            pos,
            singletons(a + b),
        ),
{
    let s = split_units(us, pos);
    let i = split_index(us, pos);
    let m = lemma_split(us, pos);
    let sa = singletons(a);
    let us1 = insert_at(us, pos, sa);
    lemma_singletons_wf(a);
    lemma_insert_at(us, pos, sa);
    lemma_kana_singletons(a);
    assert(us1 == s.take(i) + sa + s.skip(i));
    let j = i + a.len();
    if pos <= kana_of(us).len() {
        assert(us1.take(j) =~= s.take(i) + sa);
        lemma_kana_append(s.take(i), sa);
        assert(prefix_len(us1, j) == pos + a.len());
        lemma_split_at_boundary(us1, j);
    } else {
        assert(s.skip(i) =~= Seq::<UnitModel>::empty());
        lemma_split_beyond(us1, pos + a.len());
    }
    assert(us1.take(j) =~= s.take(i) + sa);
    assert(us1.skip(j) =~= s.skip(i));
    assert(singletons(a + b) =~= sa + singletons(b));
    assert(insert_at(us1, pos + a.len(), singletons(b)) =~= insert_at(us, pos, singletons(a + b)));
}

/// At a unit boundary, inserting a unit of one kana character and then
/// removing the character at that position gives back exactly the units that
/// were there before, raw keystrokes included; the removed character is the
/// inserted kana. With the cursor at that boundary, this is `insert_unit`
/// followed by `remove_char_before_cursor`.
pub proof fn law_backspace_undoes_unit_insert(us: Seq<UnitModel>, j: int, u: UnitModel)
    requires
        units_wf(us),
        0 <= j <= us.len(),
        u.1.len() == 1,
    ensures
        kana_of(insert_at(us, prefix_len(us, j) as int, seq![u]))[prefix_len(us, j) as int]
            == u.1[0],
        remove_at(insert_at(us, prefix_len(us, j) as int, seq![u]), prefix_len(us, j) as int)
            == us,
{
    let pos = prefix_len(us, j) as int;
    lemma_split_at_boundary(us, j);
    let us1 = insert_at(us, pos, seq![u]);
    assert(us1 =~= us.take(j) + seq![u] + us.skip(j));
    assert(units_wf(seq![u]));
    lemma_insert_at(us, pos, seq![u]);
    crate::model::lemma_kana_single(u);
    lemma_prefix_mono(us, j, us.len() as int);
    lemma_prefix_full(us);
    assert(us1.take(j) =~= us.take(j));
    assert(us1[j] == u);
    lemma_prefix_step(us1, j);
    law_remove_at_direct(us1, pos, j);
    assert(us1.remove(j) =~= us);
}

/// Inserting units at a unit boundary (the `j`-th one) places them between
/// the units before and after it, which all stay as they were, raw keystrokes
/// included. This holds for any units inserted, such as one romaji unit with
/// several kana.
pub proof fn law_insert_at_boundary(us: Seq<UnitModel>, j: int, new: Seq<UnitModel>)
    requires
        units_wf(us),
        0 <= j <= us.len(),
    ensures
        insert_at(us, prefix_len(us, j) as int, new) == us.take(j) + new + us.skip(j),
        raw_of(insert_at(us, prefix_len(us, j) as int, new)) == raw_of(us.take(j)) + raw_of(new)
            + raw_of(us.skip(j)),
        kana_of(insert_at(us, prefix_len(us, j) as int, new)) == kana_of(us.take(j)) + kana_of(
            new,
        ) + kana_of(us.skip(j)),
{
    lemma_split_at_boundary(us, j);
    lemma_kana_append(us.take(j), new);
    lemma_kana_append(us.take(j) + new, us.skip(j));
}

/// Inserting units at a position strictly inside unit `m` changes that unit
/// only: its kana is cut at the position into literal one-character units,
/// the new units go in between, and every other unit stays as it was, raw
/// keystrokes included. This holds for any units inserted.
pub proof fn law_insert_inside_unit(us: Seq<UnitModel>, m: int, pos: int, new: Seq<UnitModel>)
    requires
        units_wf(us),
        0 <= m < us.len(),
        prefix_len(us, m) < pos < prefix_len(us, m + 1),
    ensures
        ({
            let k = us[m].1;
            let off = pos - prefix_len(us, m);
            &&& insert_at(us, pos, new) == us.take(m) + singletons(k.take(off)) + new + singletons(
                k.skip(off),
            ) + us.skip(m + 1)
            &&& raw_of(insert_at(us, pos, new)) == raw_of(us.take(m)) + k.take(off) + raw_of(new)
                + k.skip(off) + raw_of(us.skip(m + 1))
        }),
{
    let k = us[m].1;
    let off = pos - prefix_len(us, m);
    lemma_split_inside_unit(us, m, pos);
    let s = degrade_at(us, m);
    let i = m + off;
    lemma_prefix_step(us, m);
    assert(s.take(i) =~= us.take(m) + singletons(k.take(off)));
    assert(s.skip(i) =~= singletons(k.skip(off)) + us.skip(m + 1));
    let a = us.take(m);
    let b = singletons(k.take(off));
    let c = singletons(k.skip(off));
    let d = us.skip(m + 1);
    assert(insert_at(us, pos, new) =~= a + b + new + c + d);
    lemma_kana_append(a, b);
    lemma_kana_append(a + b, new);
    lemma_kana_append(a + b + new, c);
    lemma_kana_append(a + b + new + c, d);
    lemma_kana_singletons(k.take(off));
    lemma_kana_singletons(k.skip(off));
}

} // verus!
