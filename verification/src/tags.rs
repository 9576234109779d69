//! The tag table: the fixed lookup from a country tag to its display name,
//! loaded once from comma-separated reference data.  Display only; parsing
//! never consults it.

use vstd::prelude::*;
use crate::text::{first_index_of, lemma_first_index_of, find_byte, sub_vec, bytes_eq, lines_view};

verus! {

/// The `,` byte separating a tag from its display name.
pub const COMMA_BYTE: u8 = 44;

/// The entry one reference line contributes: the text before the first comma
/// and the text between the first comma and the next (or the line end).
/// A line with no comma contributes nothing.
pub open spec fn line_entry(l: Seq<u8>) -> Option<(Seq<u8>, Seq<u8>)> {
    let c = first_index_of(l, COMMA_BYTE);
    if c < l.len() {
        let rest = l.skip(c + 1);
        Some((l.take(c), rest.take(first_index_of(rest, COMMA_BYTE))))
    } else {
        None
    }
}

/// The entries of all reference lines, in order.
pub open spec fn spec_table(lines: Seq<Seq<u8>>) -> Seq<(Seq<u8>, Seq<u8>)>
    decreases lines.len(),
{
    if lines.len() == 0 {
        Seq::<(Seq<u8>, Seq<u8>)>::empty()
    } else {
        spec_table(lines.drop_last()) + match line_entry(lines.last()) {
            Some(e) => seq![e],
            None => Seq::<(Seq<u8>, Seq<u8>)>::empty(),
        }
    }
}

/// The display name for `tag`: the last entry wins, as in a map built by
/// repeated insertion.
pub open spec fn table_lookup(t: Seq<(Seq<u8>, Seq<u8>)>, tag: Seq<u8>) -> Option<Seq<u8>>
    decreases t.len(),
{
    if t.len() == 0 {
        None
    } else if t.last().0 == tag {
        Some(t.last().1)
    } else {
        table_lookup(t.drop_last(), tag)
    }
}

/// The immutable tag-to-display-name lookup.
pub struct TagTable {
    pub entries: Vec<(Vec<u8>, Vec<u8>)>,
}

impl View for TagTable {
    type V = Seq<(Seq<u8>, Seq<u8>)>;

    open spec fn view(&self) -> Seq<(Seq<u8>, Seq<u8>)> {
        self.entries@.map(|i: int, e: (Vec<u8>, Vec<u8>)| (e.0@, e.1@))
    }
}

impl TagTable {
    /// Builds the table from the reference data, handed as its lines.
    pub fn from_lines(lines: &Vec<Vec<u8>>) -> (t: TagTable)
        ensures
            t@ == spec_table(lines_view(lines@)),
    {
        let ghost lv = lines_view(lines@);
        let mut entries: Vec<(Vec<u8>, Vec<u8>)> = Vec::new();
        let n: usize = lines.len();
        let mut i: usize = 0;
        proof {
            assert(lv.take(0) =~= Seq::<Seq<u8>>::empty());
            assert(entries@.map(|k: int, e: (Vec<u8>, Vec<u8>)| (e.0@, e.1@)) =~= Seq::<
                (Seq<u8>, Seq<u8>),
            >::empty());
        }
        while i < n
            invariant
                n == lines@.len(),
                lv == lines_view(lines@),
                lv.len() == n,
                0 <= i <= n,
                entries@.map(|k: int, e: (Vec<u8>, Vec<u8>)| (e.0@, e.1@)) == spec_table(
                    lv.take(i as int),
                ),
            decreases n - i,
        {
            let l: &[u8] = lines[i].as_slice();
            proof {
                assert(lv[i as int] == lines@[i as int]@);
                assert(lv.take(i + 1 as int).drop_last() =~= lv.take(i as int));
                assert(lv.take(i + 1 as int).last() == lv[i as int]);
            }
            let ghost before = entries@.map(|k: int, e: (Vec<u8>, Vec<u8>)| (e.0@, e.1@));
            let c = find_byte(l, COMMA_BYTE);
            proof {
                lemma_first_index_of(l@, COMMA_BYTE);
            }
            if c < l.len() {
                let tag = sub_vec(l, 0, c);
                let rest: &[u8] = &l[c + 1..l.len()];
                proof {
                    assert(rest@ =~= l@.skip(c + 1));
                }
                let c2 = find_byte(rest, COMMA_BYTE);
                proof {
                    lemma_first_index_of(rest@, COMMA_BYTE);
                }
                let name = sub_vec(rest, 0, c2);
                proof {
                    assert(tag@ =~= l@.take(c as int));
                    assert(name@ =~= l@.skip(c + 1).take(first_index_of(l@.skip(c + 1), COMMA_BYTE)));
                }
                entries.push((tag, name));
                proof {
                    assert(entries@.map(|k: int, e: (Vec<u8>, Vec<u8>)| (e.0@, e.1@)) =~= before
                        + seq![(l@.take(c as int), l@.skip(c + 1).take(
                        first_index_of(l@.skip(c + 1), COMMA_BYTE),
                    ))]);
                }
            } else {
                proof {
                    assert(line_entry(lv[i as int]) is None);
                    assert(spec_table(lv.take(i + 1 as int)) =~= before);
                }
            }
            i = i + 1;
        }
        proof {
            assert(lv.take(n as int) =~= lv);
        }
        TagTable { entries }
    }

    /// The display name recorded for `tag`, if any.
    pub fn get(&self, tag: &[u8]) -> (r: Option<&Vec<u8>>)
        ensures
            match r {
                Some(name) => table_lookup(self@, tag@) == Some(name@),
                None => table_lookup(self@, tag@) is None,
            },
    {
        let n: usize = self.entries.len();
        let mut i: usize = n;
        proof {
            assert(self@.take(n as int) =~= self@);
        }
        while i > 0
            invariant
                n == self.entries@.len(),
                self@.len() == n,
                0 <= i <= n,
                table_lookup(self@, tag@) == table_lookup(self@.take(i as int), tag@),
            decreases i,
        {
            i = i - 1;
            proof {
                assert(self@.take(i + 1 as int).drop_last() =~= self@.take(i as int));
                assert(self@.take(i + 1 as int).last() == self@[i as int]);
                assert(self@[i as int] == (self.entries@[i as int].0@, self.entries@[i as int].1@));
            }
            if bytes_eq(self.entries[i].0.as_slice(), tag) {
                return Some(&self.entries[i].1);
            }
        }
        proof {
            assert(self@.take(0) =~= Seq::<(Seq<u8>, Seq<u8>)>::empty());
        }
        None
    }
}

} // verus!
