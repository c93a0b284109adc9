//! Parsing the index text into a map from relative path to asset metadata,
//! and the read-only lookup over it.
//!
//! An index is UTF-8 text, one newline-terminated record per asset:
//! `path//offset//length//mime`. Empty lines are skipped; any other line
//! that does not split into exactly four fields, or whose numeric fields do
//! not read as `u64` decimals, makes the whole index malformed. Duplicate
//! paths overwrite earlier entries: the last line wins.

use vstd::prelude::*;

use crate::asset::{ArchiveError, Asset, AssetModel};
use crate::text::{
    all_digits,
    dec_value,
    find_nl,
    find_nl_from,
    lemma_find_nl,
    lemma_find_nl_is,
    parse_u64_digits,
    split_delim,
    split_on_delim,
    str_eq,
};

verus! {

/// A field that reads as a non-negative decimal that fits in `u64`.
pub open spec fn is_dec_u64(s: Seq<char>) -> bool {
    s.len() > 0 && all_digits(s) && dec_value(s) <= u64::MAX
}

/// What one non-empty index line means: its path and asset metadata, or
/// nothing when the line is malformed.
pub open spec fn parse_line(line: Seq<char>) -> Option<(Seq<char>, AssetModel)> {
    let f = split_delim(line);
    if f.len() != 4 {
        None
    } else if !is_dec_u64(f[1]) || !is_dec_u64(f[2]) {
        None
    } else {
        Some(
            (
                f[0],
                AssetModel {
                    offset: dec_value(f[1]) as u64,
                    len: dec_value(f[2]) as u64,
                    mime: f[3],
                },
            ),
        )
    }
}

/// What a whole index text means: the entries of its non-empty lines in
/// order, or the first malformed line.
pub open spec fn parse_index(s: Seq<char>) -> Result<Seq<(Seq<char>, AssetModel)>, Seq<char>>
    decreases s.len(),
    via parse_index_decreases
{
    if s.len() == 0 {
        Ok(Seq::empty())
    } else {
        let i = find_nl(s);
        let line = if i < 0 {
            s
        } else {
            s.take(i)
        };
        let rest = if i < 0 {
            Seq::empty()
        } else {
            s.skip(i + 1)
        };
        if line.len() == 0 {
            parse_index(rest)
        } else {
            match parse_line(line) {
                None => Err(line),
                Some(e) => match parse_index(rest) {
                    Err(l) => Err(l),
                    Ok(es) => Ok(seq![e] + es),
                },
            }
        }
    }
}

#[via_fn]
proof fn parse_index_decreases(s: Seq<char>) {
    lemma_find_nl(s);
}

/// The map that a sequence of entries builds: later entries overwrite
/// earlier ones.
pub open spec fn map_of(es: Seq<(Seq<char>, AssetModel)>) -> Map<Seq<char>, AssetModel>
    decreases es.len(),
{
    if es.len() == 0 {
        Map::empty()
    } else {
        map_of(es.drop_last()).insert(es.last().0, es.last().1)
    }
}

/// A path is in the map exactly when some entry carries it.
pub proof fn lemma_map_of_contains(es: Seq<(Seq<char>, AssetModel)>)
    ensures
        forall|p: Seq<char>|
            #[trigger] map_of(es).contains_key(p) <==> exists|i: int|
                0 <= i < es.len() && (#[trigger] es[i]).0 == p,
    decreases es.len(),
{
    if es.len() == 0 {
    } else {
        let d = es.drop_last();
        lemma_map_of_contains(d);
        assert forall|p: Seq<char>| #[trigger] map_of(es).contains_key(p) implies exists|i: int|
            0 <= i < es.len() && (#[trigger] es[i]).0 == p by {
            if p == es.last().0 {
                assert((es[es.len() - 1]).0 == p);
            } else {
                assert(map_of(d).contains_key(p));
                let i = choose|i: int| 0 <= i < d.len() && (#[trigger] d[i]).0 == p;
                assert((es[i]).0 == p);
            }
        }
        assert forall|p: Seq<char>|
            (exists|i: int| 0 <= i < es.len() && (#[trigger] es[i]).0 == p) implies map_of(
            es,
        ).contains_key(p) by {
            let i = choose|i: int| 0 <= i < es.len() && (#[trigger] es[i]).0 == p;
            if i < es.len() - 1 {
                assert((d[i]).0 == p);
                assert(map_of(d).contains_key(p));
            }
        }
    }
}

/// The entry of a path with no later entry of the same path is the one the
/// map holds: the last line wins.
pub proof fn lemma_map_of_last(es: Seq<(Seq<char>, AssetModel)>, i: int)
    requires
        0 <= i < es.len(),
        forall|j: int| i < j < es.len() ==> (#[trigger] es[j]).0 != (es[i]).0,
    ensures
        map_of(es).contains_key((es[i]).0),
        map_of(es)[(es[i]).0] == (es[i]).1,
    decreases es.len(),
{
    if i == es.len() - 1 {
    } else {
        let d = es.drop_last();
        assert((es[es.len() - 1]).0 != (es[i]).0);
        assert(forall|j: int| i < j < d.len() ==> (#[trigger] d[j]).0 == (es[j]).0);
        assert((d[i]).0 == (es[i]).0 && (d[i]).1 == (es[i]).1);
        lemma_map_of_last(d, i);
    }
}

#[derive(Debug)]
struct IndexEntry {
    path: String,
    asset: Asset,
}

spec fn entries_model_of(v: Seq<IndexEntry>) -> Seq<(Seq<char>, AssetModel)> {
    v.map_values(|e: IndexEntry| (e.path@, e.asset@))
}

/// The parsed index: an immutable mapping from relative path to asset
/// metadata, built once from the full index text.
#[derive(Debug)]
pub struct AssetIndexer {
    entries: Vec<IndexEntry>,
}

impl View for AssetIndexer {
    type V = Map<Seq<char>, AssetModel>;

    closed spec fn view(&self) -> Map<Seq<char>, AssetModel> {
        map_of(entries_model_of(self.entries@))
    }
}

impl AssetIndexer {
    /// Parses the index text. Returns the built map, or `MalformedIndex`
    /// holding the first offending line.
    pub fn new(content: &str) -> (r: Result<AssetIndexer, ArchiveError>)
        ensures
            match r {
                Ok(ix) => parse_index(content@) matches Ok(es) && ix@ == map_of(es),
                Err(e) => parse_index(content@) matches Err(line) && e matches
                    ArchiveError::MalformedIndex(l) && l@ == line,
            },
    {
        let ghost s = content@;
        let n = content.unicode_len();
        let mut entries: Vec<IndexEntry> = Vec::new();
        let mut pos: usize = 0;
        proof {
            assert(s.skip(0) =~= s);
            assert(entries_model_of(entries@) =~= Seq::<(Seq<char>, AssetModel)>::empty());
            if parse_index(s) is Ok {
                assert(entries_model_of(entries@) + parse_index(s)->Ok_0 =~= parse_index(
                    s,
                )->Ok_0);
            }
        }
        while pos < n
            invariant
                0 <= pos <= n,
                n == s.len(),
                s == content@,
                ({
                    let model = entries_model_of(entries@);
                    match parse_index(s.skip(pos as int)) {
                        Ok(rest) => parse_index(s) matches Ok(full) && full == model + rest,
                        Err(l) => parse_index(s) matches Err(l2) && l2 == l,
                    }
                }),
            decreases n - pos,
        {
            let j = find_nl_from(content, pos);
            let next_pos: usize = if j < n {
                j + 1
            } else {
                n
            };
            let ghost rem = s.skip(pos as int);
            let ghost rem_next = s.skip(next_pos as int);
            proof {
                assert(forall|t: int| 0 <= t < rem.len() ==> rem[t] == s[t + pos]);
                if j < n {
                    lemma_find_nl_is(rem, j - pos);
                    assert(rem.take(j - pos) =~= s.subrange(pos as int, j as int));
                    assert(rem.skip(j - pos + 1) =~= s.skip(j + 1));
                } else {
                    lemma_find_nl(rem);
                    if find_nl(rem) >= 0 {
                        assert(rem[find_nl(rem)] == '\n');
                        assert(s[find_nl(rem) + pos] == '\n');
                    }
                    assert(find_nl(rem) < 0);
                    assert(rem =~= s.subrange(pos as int, j as int));
                    assert(rem_next =~= Seq::<char>::empty());
                }
            }
            if j > pos {
                let line_str = content.substring_char(pos, j);
                assert(line_str@ == (if find_nl(rem) < 0 {
                    rem
                } else {
                    rem.take(find_nl(rem))
                }));
                let fields = split_on_delim(line_str);
                if fields.len() != 4 {
                    assert(parse_line(line_str@) is None);
                    assert(parse_index(rem) == Err::<Seq<(Seq<char>, AssetModel)>, Seq<char>>(
                        line_str@,
                    ));
                    return Err(ArchiveError::MalformedIndex(String::from_str(line_str)));
                }
                let f0: &str = fields[0];
                let f1: &str = fields[1];
                let f2: &str = fields[2];
                let f3: &str = fields[3];
                assert(f1@ == split_delim(line_str@)[1] && f2@ == split_delim(line_str@)[2]);
                let off = match parse_u64_digits(f1) {
                    Some(v) => v,
                    None => {
                        assert(!is_dec_u64(split_delim(line_str@)[1]));
                        assert(parse_line(line_str@) is None);
                        return Err(ArchiveError::MalformedIndex(String::from_str(line_str)));
                    },
                };
                let length = match parse_u64_digits(f2) {
                    Some(v) => v,
                    None => {
                        assert(!is_dec_u64(split_delim(line_str@)[2]));
                        assert(parse_line(line_str@) is None);
                        return Err(ArchiveError::MalformedIndex(String::from_str(line_str)));
                    },
                };
                let entry = IndexEntry {
                    path: String::from_str(f0),
                    asset: Asset { offset: off, len: length, mime: String::from_str(f3) },
                };
                proof {
                    let e_spec = parse_line(line_str@).unwrap();
                    assert(parse_line(line_str@) == Some(
                        (f0@, AssetModel { offset: off, len: length, mime: f3@ }),
                    ));
                    let model = entries_model_of(entries@);
                    assert(entries_model_of(entries@.push(entry)) =~= model + seq![
                        (f0@, AssetModel { offset: off, len: length, mime: f3@ }),
                    ]);
                    if parse_index(rem_next) is Ok {
                        let rest2 = parse_index(rem_next)->Ok_0;
                        assert(parse_index(rem) == Ok::<Seq<(Seq<char>, AssetModel)>, Seq<char>>(
                            seq![e_spec] + rest2,
                        ));
                        assert((model + seq![e_spec]) + rest2 =~= model + (seq![e_spec] + rest2));
                    }
                }
                entries.push(entry);
            } else {
                proof {
                    if j < n {
                        assert(rem.take(find_nl(rem)).len() == 0);
                    } else {
                        assert(rem.len() == 0);
                        assert(rem_next =~= rem);
                    }
                }
            }
            pos = next_pos;
        }
        proof {
            assert(s.skip(pos as int) =~= Seq::<char>::empty());
            let model = entries_model_of(entries@);
            if parse_index(s) is Ok {
                assert(model + Seq::<(Seq<char>, AssetModel)>::empty() =~= model);
            }
        }
        Ok(AssetIndexer { entries })
    }

    /// Exact-string lookup: the asset of `path`, or `None` when the path is
    /// absent from the map.
    pub fn locate_asset(&self, path: &str) -> (r: Option<&Asset>)
        ensures
            match r {
                Some(a) => self@.contains_key(path@) && a@ == self@[path@],
                None => !self@.contains_key(path@),
            },
    {
        let n = self.entries.len();
        let mut i: usize = n;
        while i > 0
            invariant
                0 <= i <= n,
                n == self.entries.len(),
                forall|j: int|
                    i <= j < n ==> (#[trigger] self.entries@[j]).path@ != path@,
            decreases i,
        {
            i = i - 1;
            if str_eq(self.entries[i].path.as_str(), path) {
                proof {
                    let em = entries_model_of(self.entries@);
                    assert(forall|j: int|
                        (i as int) < j < em.len() ==> (#[trigger] em[j]).0 != (em[i as int]).0);
                    lemma_map_of_last(em, i as int);
                }
                return Some(&self.entries[i].asset);
            }
        }
        proof {
            let em = entries_model_of(self.entries@);
            lemma_map_of_contains(em);
            if self@.contains_key(path@) {
                let w = choose|w: int| 0 <= w < em.len() && (#[trigger] em[w]).0 == path@;
                assert((self.entries@[w]).path@ == path@);
            }
        }
        None
    }
}

} // verus!
