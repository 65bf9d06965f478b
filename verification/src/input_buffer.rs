//! The composed input as a sequence of units `{ raw, kana }`, with a cursor.
//!
//! Each unit pairs the kana it contributes to the preedit with the raw
//! keystrokes that produced it (e.g. raw `shi`, kana `し`), so that the
//! originally typed romaji can be recovered even after edits. A literal
//! insert (alphabet, emoji, space) stores `raw == kana`.
//!
//! `cursor_pos` is an index counted in kana characters (not units, not bytes).
//! Structural edits first split whichever unit the edit boundary bisects into
//! singleton (`raw == kana`) units, so an edit only loses the raw keystrokes
//! of the one unit it actually splits.
use vstd::prelude::*;
use vstd::string::*;
use crate::model::UnitModel;
use crate::model::kana_of;
use crate::model::raw_of;
use crate::model::prefix_len;
use crate::model::units_wf;
use crate::model::all_literal;
use crate::model::singletons;
use crate::model::split_units;
use crate::model::split_index;
use crate::model::insert_at;
use crate::model::remove_at;
use crate::model::splice_text;
use crate::model::lemma_kana_singletons;
use crate::model::lemma_singletons_wf;
use crate::model::lemma_split;
use crate::model::lemma_prefix_step;
use crate::model::lemma_prefix_mono;
use crate::model::lemma_prefix_full;
use crate::model::lemma_prefix_zero;
use crate::model::lemma_insert_at;
use crate::model::lemma_remove_at;
use crate::laws::law_insert_at_end_appends;
use crate::laws::law_literal_edits_stay_literal;
use crate::laws::law_literal_raw_is_text;

verus! {

/// `char`'s `ToString` (std): the string made of that one character.
#[verifier::external_body]
fn char_to_string(c: char) -> (s: String)
    ensures
        s@ == seq![c],
{
    c.to_string()
}

/// One input unit: the kana shown in the preedit plus the raw keystrokes that
/// produced it. For literal input `raw == kana`.
struct Unit {
    raw: String,
    kana: String,
}

impl View for Unit {
    type V = UnitModel;

    closed spec fn view(&self) -> UnitModel {
        (self.raw@, self.kana@)
    }
}

impl Unit {
    /// A literal unit for one character.
    fn singleton(c: char) -> (u: Unit)
        ensures
            u@ == (seq![c], seq![c]),
    {
        Unit { raw: char_to_string(c), kana: char_to_string(c) }
    }
}

/// Composed input buffer with cursor.
pub struct InputBuffer {
    /// Source of truth: the ordered units. `text()` / `raw_text()` derive from it.
    units: Vec<Unit>,
    /// Cursor position, in kana characters (not bytes, not unit indices).
    pub cursor_pos: usize,
}

impl View for InputBuffer {
    type V = Seq<UnitModel>;

    /// The units, each as its `(raw, kana)` pair.
    closed spec fn view(&self) -> Seq<UnitModel> {
        self.units@.map_values(|u: Unit| u@)
    }
}

impl InputBuffer {
    /// The buffer's invariant: no unit has empty kana, the text's length fits
    /// in a `usize`, and so does the cursor.
    pub open spec fn wf(&self) -> bool {
        &&& units_wf(self@)
        &&& kana_of(self@).len() <= usize::MAX
        &&& 0 <= self.cursor() <= usize::MAX
    }

    /// The cursor position, in kana characters.
    pub closed spec fn cursor(&self) -> int {
        self.cursor_pos as int
    }

    /// Every unit is literal (raw == kana), as literal input leaves them.
    pub open spec fn is_literal(&self) -> bool {
        all_literal(self@)
    }

    /// The composed kana text.
    pub open spec fn kana_text(&self) -> Seq<char> {
        kana_of(self@)
    }

    /// The concatenated raw keystrokes.
    pub open spec fn raw_keys(&self) -> Seq<char> {
        raw_of(self@)
    }

    /// The cursor position.
    pub fn get_cursor(&self) -> (c: usize)
        ensures
            c == self.cursor(),
    {
        self.cursor_pos
    }

    /// Move the cursor to `pos`. Moving the cursor never changes the units.
    pub fn set_cursor(&mut self, pos: usize)
        ensures
            final(self)@ == old(self)@,
            final(self).cursor() == pos,
            final(self).wf() == old(self).wf(),
    {
        self.cursor_pos = pos;
    }

    /// Create a new empty buffer.
    pub fn new() -> (b: Self)
        ensures
            b@ == Seq::<UnitModel>::empty(),
            b.cursor() == 0,
            b.wf(),
            b.is_literal(),
    {
        let b = Self { units: Vec::new(), cursor_pos: 0 };
        assert(b@ =~= Seq::<UnitModel>::empty());
        b
    }

    /// Clear the buffer (units, cursor).
    pub fn clear(&mut self)
        ensures
            final(self)@ == Seq::<UnitModel>::empty(),
            final(self).cursor() == 0,
            final(self).wf(),
            final(self).is_literal(),
    {
        self.units.clear();
        self.cursor_pos = 0;
        assert(self@ =~= Seq::<UnitModel>::empty());
    }

    /// Composed kana text: the concatenation of every unit's kana.
    pub fn text(&self) -> (t: String)
        ensures
            t@ == self.kana_text(),
    {
        let mut t = String::new();
        let mut i: usize = 0;
        while i < self.units.len()
            invariant
                0 <= i <= self@.len(),
                self@.len() == self.units@.len(),
                t@ == kana_of(self@.take(i as int)),
            decreases self.units@.len() - i,
        {
            proof {
                lemma_prefix_step(self@, i as int);
            }
            t.append(self.units[i].kana.as_str());
            i += 1;
        }
        proof {
            lemma_prefix_full(self@);
            assert(self@.take(i as int) =~= self@);
        }
        t
    }

    /// Concatenation of every unit's raw keystrokes: the originally typed input.
    pub fn raw_text(&self) -> (t: String)
        ensures
            t@ == self.raw_keys(),
            self.is_literal() ==> t@ == self.kana_text(),
    {
        let mut t = String::new();
        let mut i: usize = 0;
        while i < self.units.len()
            invariant
                0 <= i <= self@.len(),
                self@.len() == self.units@.len(),
                t@ == raw_of(self@.take(i as int)),
            decreases self.units@.len() - i,
        {
            proof {
                lemma_prefix_step(self@, i as int);
            }
            t.append(self.units[i].raw.as_str());
            i += 1;
        }
        proof {
            assert(self@.take(i as int) =~= self@);
            if self.is_literal() {
                law_literal_raw_is_text(self@);
            }
        }
        t
    }

    /// Total kana-char length.
    fn kana_len(&self) -> (n: usize)
        requires
            self.wf(),
        ensures
            n == self.kana_text().len(),
    {
        let mut n: usize = 0;
        let mut i: usize = 0;
        while i < self.units.len()
            invariant
                self.wf(),
                0 <= i <= self@.len(),
                self@.len() == self.units@.len(),
                n == prefix_len(self@, i as int),
            decreases self.units@.len() - i,
        {
            proof {
                lemma_prefix_step(self@, i as int);
                lemma_prefix_mono(self@, i + 1, self@.len() as int);
                lemma_prefix_full(self@);
            }
            n += self.units[i].kana.as_str().unicode_len();
            i += 1;
        }
        proof {
            lemma_prefix_full(self@);
        }
        n
    }

    /// Ensure a unit boundary exists at kana position `kana_pos`, splitting
    /// (and degrading to singleton `raw == kana` units) whichever unit it
    /// bisects. Returns the index of the unit where `kana_pos` begins.
    fn split_at_kana_boundary(&mut self, kana_pos: usize) -> (idx: usize)
        requires
            old(self).wf(),
        ensures
            final(self)@ == split_units(old(self)@, kana_pos as int),
            idx == split_index(old(self)@, kana_pos as int),
            final(self).cursor() == old(self).cursor(),
            final(self).wf(),
            kana_of(final(self)@) == kana_of(old(self)@),
    {
        let ghost us = self@;
        let ghost pos = kana_pos as int;
        proof {
            lemma_split(us, pos);
            assert(us.skip(0) =~= us);
            assert(us.take(0) + split_units(us, pos) =~= split_units(us, pos));
            lemma_prefix_zero(us);
        }
        let mut acc: usize = 0;
        let mut i: usize = 0;
        while i < self.units.len()
            invariant
                self@ == us,
                old(self)@ == us,
                self.cursor() == old(self).cursor(),
                self.wf(),
                split_units(us, pos) == us.take(i as int) + split_units(us.skip(i as int), pos - acc),
                split_index(us, pos) == i + split_index(us.skip(i as int), pos - acc),
                0 <= i <= us.len(),
                self.units@.len() == us.len(),
                acc == prefix_len(us, i as int),
                acc <= kana_pos,
                pos == kana_pos,
            decreases us.len() - i,
        {
            if kana_pos == acc {
                proof {
                    assert(split_units(us.skip(i as int), 0) == us.skip(i as int));
                    assert(split_index(us.skip(i as int), 0) == 0);
                    assert(us.take(i as int) + us.skip(i as int) =~= us);
                    lemma_split(us, pos);
                }
                return i;
            }
            let len = self.units[i].kana.as_str().unicode_len();
            proof {
                lemma_prefix_step(us, i as int);
                lemma_prefix_mono(us, i + 1, us.len() as int);
                lemma_prefix_full(us);
            }
            if kana_pos < acc + len {
                let ghost rest = us.skip(i as int);
                let ghost k0 = us[i as int].1;
                assert(rest[0] == us[i as int]);
                assert(split_units(rest, pos - acc) == singletons(k0) + rest.skip(1));
                let unit = self.units.remove(i);
                assert(unit@ == us[i as int]);
                proof {
                    assert(self@ =~= us.take(i as int) + singletons(k0).take(0) + us.skip(i + 1));
                }
                let mut k: usize = 0;
                while k < len
                    invariant
                        0 <= k <= len,
                        len == k0.len(),
                        unit.kana@ == k0,
                        0 <= i < us.len(),
                        self.units@.len() == us.len() - 1 + k,
                        self@ == us.take(i as int) + singletons(k0).take(k as int) + us.skip(i + 1),
                        self.cursor() == old(self).cursor(),
                        old(self)@ == us,
                    decreases len - k,
                {
                    let ghost prev = self@;
                    let c = unit.kana.as_str().get_char(k);
                    let n = self.units.len();
                    assert(i + k <= n);
                    self.units.insert(i + k, Unit::singleton(c));
                    proof {
                        assert(self@ =~= prev.insert(i + k, (seq![c], seq![c])));
                        assert(self@ =~= us.take(i as int) + singletons(k0).take(k + 1) + us.skip(
                            i + 1,
                        ));
                    }
                    k += 1;
                }
                proof {
                    assert(singletons(k0).take(len as int) =~= singletons(k0));
                    assert(rest.skip(1) =~= us.skip(i + 1));
                    assert(self@ =~= split_units(us, pos));
                    lemma_split(us, pos);
                }
                let n = self.units.len();
                assert(i + (kana_pos - acc) <= n);
                return i + (kana_pos - acc);
            }
            proof {
                let rest = us.skip(i as int);
                assert(rest[0] == us[i as int]);
                assert(rest.skip(1) =~= us.skip(i + 1));
                assert(us.take(i as int) + seq![us[i as int]] =~= us.take(i + 1));
            }
            acc += len;
            i += 1;
        }
        proof {
            lemma_split(us, pos);
            assert(us.skip(i as int) =~= Seq::<UnitModel>::empty());
            assert(us.take(i as int) =~= us);
        }
        self.units.len()
    }

    /// Insert literal text at the cursor: one unit per character, each with
    /// raw == kana. The cursor moves past the inserted text.
    pub fn insert(&mut self, text: &str)
        requires
            old(self).wf(),
            old(self).cursor() + text@.len() <= usize::MAX,
            old(self).kana_text().len() + text@.len() <= usize::MAX,
        ensures
            final(self).wf(),
            text@.len() == 0 ==> final(self)@ == old(self)@
                && final(self).cursor() == old(self).cursor(),
            text@.len() > 0 ==> final(self)@ == insert_at(
                old(self)@,
                old(self).cursor(),
                singletons(text@),
            ) && final(self).cursor() == old(self).cursor() + text@.len(),
            final(self).kana_text() == splice_text(old(self).kana_text(), old(self).cursor(), text@),
            old(self).cursor() >= old(self).kana_text().len()
                ==> final(self).raw_keys() == old(self).raw_keys() + text@,
            old(self).is_literal() ==> final(self).is_literal(),
    {
        if text.is_empty() {
            proof {
                assert(self.raw_keys() + text@ =~= self.raw_keys());
                assert(splice_text(self.kana_text(), self.cursor(), text@) =~= self.kana_text());
            }
            return;
        }
        let ghost us = self@;
        let pos = self.cursor_pos;
        let idx = self.split_at_kana_boundary(pos);
        let ghost s = self@;
        let ghost new = singletons(text@);
        proof {
            lemma_split(us, pos as int);
            assert(self@ =~= s.take(idx as int) + new.take(0) + s.skip(idx as int));
        }
        let count = text.unicode_len();
        let mut k: usize = 0;
        while k < count
            invariant
                0 <= k <= count,
                count == text@.len(),
                new == singletons(text@),
                0 <= idx <= s.len(),
                self.units@.len() == s.len() + k,
                self@ == s.take(idx as int) + new.take(k as int) + s.skip(idx as int),
                self.cursor_pos == pos,
            decreases count - k,
        {
            let ghost prev = self@;
            let c = text.get_char(k);
            let n = self.units.len();
            assert(idx + k <= n);
            self.units.insert(idx + k, Unit::singleton(c));
            proof {
                assert(self@ =~= prev.insert(idx + k, (seq![c], seq![c])));
                assert(self@ =~= s.take(idx as int) + new.take(k + 1) + s.skip(idx as int));
            }
            k += 1;
        }
        self.cursor_pos += count;
        proof {
            assert(new.take(count as int) =~= new);
            lemma_insert_at(us, pos as int, new);
            lemma_kana_singletons(text@);
            lemma_singletons_wf(text@);
            if pos >= kana_of(us).len() {
                law_insert_at_end_appends(us, pos as int, new);
            }
            if all_literal(us) {
                law_literal_edits_stay_literal(us, pos as int, new);
            }
        }
    }

    /// Insert a single unit (raw keystrokes and the kana they produced) at the
    /// cursor. `kana` may be several characters (e.g. a youon like きゃ); it
    /// stays one atomic unit. The cursor moves past the kana.
    pub fn insert_unit(&mut self, raw: &str, kana: &str)
        requires
            old(self).wf(),
            old(self).cursor() + kana@.len() <= usize::MAX,
            old(self).kana_text().len() + kana@.len() <= usize::MAX,
        ensures
            final(self).wf(),
            kana@.len() == 0 ==> final(self)@ == old(self)@
                && final(self).cursor() == old(self).cursor(),
            kana@.len() > 0 ==> final(self)@ == insert_at(
                old(self)@,
                old(self).cursor(),
                seq![(raw@, kana@)],
            ) && final(self).cursor() == old(self).cursor() + kana@.len(),
            final(self).kana_text() == splice_text(old(self).kana_text(), old(self).cursor(), kana@),
            kana@.len() > 0 && old(self).cursor() >= old(self).kana_text().len()
                ==> final(self).raw_keys() == old(self).raw_keys() + raw@,
            old(self).is_literal() && raw@ == kana@ ==> final(self).is_literal(),
    {
        if kana.is_empty() {
            proof {
                assert(splice_text(self.kana_text(), self.cursor(), kana@) =~= self.kana_text());
            }
            return;
        }
        let ghost us = self@;
        let pos = self.cursor_pos;
        let idx = self.split_at_kana_boundary(pos);
        let ghost s = self@;
        proof {
            lemma_split(us, pos as int);
        }
        let unit = Unit { raw: raw.to_owned(), kana: kana.to_owned() };
        self.units.insert(idx, unit);
        let count = kana.unicode_len();
        self.cursor_pos += count;
        proof {
            let u = (raw@, kana@);
            assert(self@ =~= s.take(idx as int) + seq![u] + s.skip(idx as int));
            lemma_insert_at(us, pos as int, seq![u]);
            crate::model::lemma_kana_single(u);
            assert(units_wf(seq![u]));
            if pos >= kana_of(us).len() {
                law_insert_at_end_appends(us, pos as int, seq![u]);
            }
            if all_literal(us) && raw@ == kana@ {
                assert(all_literal(seq![u]));
                law_literal_edits_stay_literal(us, pos as int, seq![u]);
            }
        }
    }

    /// Remove the kana character at kana position `char_pos`, returning it;
    /// `None`, with nothing changed, when `char_pos` is not inside the text.
    pub fn remove_char_at(&mut self, char_pos: usize) -> (r: Option<char>)
        requires
            old(self).wf(),
        ensures
            final(self).wf(),
            final(self).cursor() == old(self).cursor(),
            char_pos >= old(self).kana_text().len() ==> r == None::<char>
                && final(self)@ == old(self)@,
            char_pos < old(self).kana_text().len() ==> r == Some(old(self).kana_text()[char_pos as int])
                && final(self)@ == remove_at(old(self)@, char_pos as int)
                && final(self).kana_text() == old(self).kana_text().remove(char_pos as int),
            old(self).is_literal() ==> final(self).is_literal(),
    {
        if char_pos >= self.kana_len() {
            return None;
        }
        let ghost us = self@;
        proof {
            lemma_remove_at(us, char_pos as int);
            if all_literal(us) {
                law_literal_edits_stay_literal(us, char_pos as int, Seq::empty());
            }
        }
        // Isolate the single kana char at `char_pos` into its own unit, then
        // drop it. The splits degrade any straddled multi-char unit to
        // singletons (raw lost for that unit only).
        self.split_at_kana_boundary(char_pos + 1);
        let idx = self.split_at_kana_boundary(char_pos);
        let ghost s2 = self@;
        let unit = self.units.remove(idx);
        proof {
            assert(unit@ == s2[idx as int]);
            assert(self@ =~= s2.remove(idx as int));
        }
        Some(unit.kana.as_str().get_char(0))
    }

    /// Remove the character before the cursor (backspace), moving the cursor
    /// back by one; `None`, with nothing changed, when the cursor is at 0.
    pub fn remove_char_before_cursor(&mut self) -> (r: Option<char>)
        requires
            old(self).wf(),
        ensures
            final(self).wf(),
            old(self).cursor() == 0 ==> r == None::<char> && final(self)@ == old(self)@
                && final(self).cursor() == 0,
            old(self).cursor() > 0 ==> final(self).cursor() == old(self).cursor() - 1,
            old(self).cursor() > 0 && old(self).cursor() - 1 < old(self).kana_text().len() ==> r
                == Some(old(self).kana_text()[old(self).cursor() - 1]) && final(self)@ == remove_at(
                old(self)@,
                old(self).cursor() - 1,
            ) && final(self).kana_text() == old(self).kana_text().remove(old(self).cursor() - 1),
            old(self).cursor() > 0 && old(self).cursor() - 1 >= old(self).kana_text().len() ==> r
                == None::<char> && final(self)@ == old(self)@,
            old(self).is_literal() ==> final(self).is_literal(),
    {
        if self.cursor_pos == 0 {
            return None;
        }
        self.cursor_pos -= 1;
        let pos = self.cursor_pos;
        self.remove_char_at(pos)
    }

    /// Remove the character at the cursor (delete key); the cursor stays.
    pub fn remove_char_at_cursor(&mut self) -> (r: Option<char>)
        requires
            old(self).wf(),
        ensures
            final(self).wf(),
            final(self).cursor() == old(self).cursor(),
            old(self).cursor() >= old(self).kana_text().len() ==> r == None::<char> && final(self)@
                == old(self)@,
            old(self).cursor() < old(self).kana_text().len() ==> r == Some(
                old(self).kana_text()[old(self).cursor()],
            ) && final(self)@ == remove_at(old(self)@, old(self).cursor()) && final(self).kana_text()
                == old(self).kana_text().remove(old(self).cursor()),
            old(self).is_literal() ==> final(self).is_literal(),
    {
        let pos = self.cursor_pos;
        self.remove_char_at(pos)
    }
}

} // verus!
