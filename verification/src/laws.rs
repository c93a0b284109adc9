//! What the archive format guarantees, proved once and for all: parsing a
//! rendered index recovers every recorded asset (round trip), the recorded
//! lengths sum to the blob's size, and the recorded ranges tile the blob
//! with no gap and no overlap.

use vstd::prelude::*;

use crate::archive::{
    index_line,
    lemma_sum_lens_cons,
    lemma_sum_lens_nonneg,
    mime_clean,
    offset_at,
    path_clean,
    render_from,
    render_index,
    sum_lens,
    RecordModel,
};
use crate::asset::AssetModel;
use crate::indexer::{
    is_dec_u64,
    lemma_map_of_contains,
    lemma_map_of_last,
    map_of,
    parse_index,
    parse_line,
};
use crate::text::{
    delim,
    dec_str,
    find_nl,
    lemma_dec_str_digits,
    lemma_dec_value_of_dec_str,
    lemma_digits_clean,
    lemma_find_nl_is,
    lemma_no_newline_concat,
    lemma_split_delim_prepend,
    lemma_split_delim_whole,
    no_newline,
    split_delim,
};

verus! {

/// Every recorded path and content type is free of the delimiter and of
/// newlines, so its index line parses back without corruption.
pub open spec fn records_clean(rs: Seq<RecordModel>) -> bool {
    forall|i: int|
        0 <= i < rs.len() ==> path_clean((#[trigger] rs[i]).path) && mime_clean(rs[i].mime)
}

/// No two records carry the same relative path, as holds of the files of
/// one directory tree.
pub open spec fn distinct_paths(rs: Seq<RecordModel>) -> bool {
    forall|i: int, j: int|
        #![trigger rs[i].path, rs[j].path]
        0 <= i < j < rs.len() ==> rs[i].path != rs[j].path
}

/// The entries that parsing a rendered index yields: one per record, in
/// order, offsets counted from `base`.
pub open spec fn asset_entries_from(rs: Seq<RecordModel>, base: int) -> Seq<
    (Seq<char>, AssetModel),
> {
    Seq::new(
        rs.len(),
        |i: int|
            (
                rs[i].path,
                AssetModel {
                    offset: (base + offset_at(rs, i)) as u64,
                    len: rs[i].len,
                    mime: rs[i].mime,
                },
            ),
    )
}

pub open spec fn asset_entries(rs: Seq<RecordModel>) -> Seq<(Seq<char>, AssetModel)> {
    asset_entries_from(rs, 0)
}

/// Prefix sums of the recorded lengths stay between zero and the total.
pub proof fn lemma_sum_lens_prefix(rs: Seq<RecordModel>, i: int)
    requires
        0 <= i <= rs.len(),
    ensures
        0 <= sum_lens(rs.take(i)) <= sum_lens(rs),
    decreases rs.len() - i,
{
    lemma_sum_lens_nonneg(rs.take(i));
    if i == rs.len() {
        assert(rs.take(i) =~= rs);
    } else {
        lemma_sum_lens_prefix(rs, i + 1);
        let t = rs.take(i + 1);
        assert(t.drop_last() =~= rs.take(i));
        assert(t.last() == rs[i]);
    }
}

/// Splitting off the head of a prefix sum.
pub proof fn lemma_sum_lens_take_cons(rs: Seq<RecordModel>, i: int)
    requires
        1 <= i <= rs.len(),
    ensures
        sum_lens(rs.take(i)) == rs[0].len + sum_lens(rs.skip(1).take(i - 1)),
{
    let t = rs.take(i);
    assert(t =~= seq![rs[0]] + rs.skip(1).take(i - 1));
    lemma_sum_lens_cons(t);
    assert(t[0] == rs[0]);
    assert(t.skip(1) =~= rs.skip(1).take(i - 1));
}

/// One rendered line parses back to its record: its body splits into the
/// four fields it was rendered from, and the numerals read back.
proof fn lemma_parse_line_of_rendered(path: Seq<char>, off: int, len: int, mime: Seq<char>)
    requires
        path_clean(path),
        mime_clean(mime),
        0 <= off <= u64::MAX,
        0 <= len <= u64::MAX,
    ensures
        ({
            let body = path + delim() + dec_str(off) + delim() + dec_str(len) + delim() + mime;
            &&& index_line(path, off, len, mime) == body + seq!['\n']
            &&& body.len() > 0
            &&& no_newline(body)
            &&& parse_line(body) == Some(
                (path, AssetModel { offset: off as u64, len: len as u64, mime }),
            )
        }),
{
    let body = path + delim() + dec_str(off) + delim() + dec_str(len) + delim() + mime;
    let r2 = dec_str(len) + delim() + mime;
    let r1 = dec_str(off) + delim() + r2;
    lemma_dec_str_digits(off);
    lemma_dec_str_digits(len);
    lemma_digits_clean(dec_str(off));
    lemma_digits_clean(dec_str(len));
    assert(body =~= path + delim() + r1);
    assert(r1 =~= dec_str(off) + delim() + r2);
    lemma_split_delim_whole(mime);
    lemma_split_delim_prepend(dec_str(len), mime);
    lemma_split_delim_prepend(dec_str(off), r2);
    lemma_split_delim_prepend(path, r1);
    assert(split_delim(r2) == seq![dec_str(len)] + seq![mime]);
    assert(split_delim(r1) == seq![dec_str(off)] + (seq![dec_str(len)] + seq![mime]));
    assert(split_delim(body) == seq![path] + (seq![dec_str(off)] + (seq![dec_str(len)] + seq![
        mime,
    ])));
    let f = split_delim(body);
    assert(f =~= seq![path, dec_str(off), dec_str(len), mime]);
    assert(f.len() == 4);
    assert(f[0] == path && f[1] == dec_str(off) && f[2] == dec_str(len) && f[3] == mime);
    lemma_dec_value_of_dec_str(off);
    lemma_dec_value_of_dec_str(len);
    assert(is_dec_u64(f[1]));
    assert(is_dec_u64(f[2]));
    assert(parse_line(body) == Some(
        (path, AssetModel { offset: off as u64, len: len as u64, mime }),
    ));
    // the body is free of newlines, and is non-empty since a numeral is
    assert(no_newline(delim())) by {
        assert(forall|i: int| 0 <= i < delim().len() ==> delim()[i] == '/');
    }
    lemma_no_newline_concat(path, delim());
    lemma_no_newline_concat(path + delim(), dec_str(off));
    lemma_no_newline_concat(path + delim() + dec_str(off), delim());
    lemma_no_newline_concat(path + delim() + dec_str(off) + delim(), dec_str(len));
    lemma_no_newline_concat(path + delim() + dec_str(off) + delim() + dec_str(len), delim());
    lemma_no_newline_concat(
        path + delim() + dec_str(off) + delim() + dec_str(len) + delim(),
        mime,
    );
    assert(index_line(path, off, len, mime) == body + seq!['\n']);
}

/// Parsing the rendering of any clean record sequence succeeds and yields
/// exactly those records, with the offsets the running counter assigned.
pub proof fn lemma_parse_render_from(rs: Seq<RecordModel>, base: int)
    requires
        records_clean(rs),
        0 <= base,
        base + sum_lens(rs) <= u64::MAX,
    ensures
        parse_index(render_from(rs, base)) == Ok::<_, Seq<char>>(asset_entries_from(rs, base)),
    decreases rs.len(),
{
    lemma_sum_lens_nonneg(rs);
    if rs.len() == 0 {
        assert(render_from(rs, base) == Seq::<char>::empty());
        assert(asset_entries_from(rs, base) =~= Seq::<(Seq<char>, AssetModel)>::empty());
    } else {
        let r0 = rs[0];
        let tail = rs.skip(1);
        lemma_sum_lens_cons(rs);
        lemma_sum_lens_nonneg(tail);
        let body = r0.path + delim() + dec_str(base) + delim() + dec_str(r0.len as int) + delim()
            + r0.mime;
        let line0 = index_line(r0.path, base, r0.len as int, r0.mime);
        let rest = render_from(tail, base + r0.len);
        assert(path_clean(r0.path) && mime_clean(r0.mime));
        lemma_parse_line_of_rendered(r0.path, base, r0.len as int, r0.mime);
        lemma_parse_render_from(tail, base + r0.len);
        let s = render_from(rs, base);
        assert(s == line0 + rest);
        assert(s =~= body + seq!['\n'] + rest);
        assert(s.len() > 0);
        // the first newline of the rendering closes the first line
        assert forall|t: int| 0 <= t < body.len() implies s[t] != '\n' by {
            assert(s[t] == body[t]);
        }
        assert(s[body.len() as int] == '\n');
        lemma_find_nl_is(s, body.len() as int);
        assert(find_nl(s) == body.len());
        assert(s.take(body.len() as int) =~= body);
        assert(s.skip(body.len() as int + 1) =~= rest);
        let e0 = (r0.path, AssetModel { offset: base as u64, len: r0.len, mime: r0.mime });
        assert(parse_line(body) == Some(e0));
        assert(parse_index(s) == Ok::<_, Seq<char>>(
            seq![e0] + asset_entries_from(tail, base + r0.len),
        ));
        assert forall|i: int| 0 <= i < rs.len() implies (seq![e0] + asset_entries_from(
            tail,
            base + r0.len,
        ))[i] == asset_entries_from(rs, base)[i] by {
            if i == 0 {
                assert(rs.take(0) =~= Seq::<RecordModel>::empty());
                assert(offset_at(rs, 0) == 0);
            } else {
                lemma_sum_lens_take_cons(rs, i);
                assert(tail[i - 1] == rs[i]);
                lemma_sum_lens_prefix(tail, i - 1);
                lemma_sum_lens_prefix(rs, i);
            }
        }
        assert(seq![e0] + asset_entries_from(tail, base + r0.len) =~= asset_entries_from(
            rs,
            base,
        ));
    }
}

/// Round trip of a build: parsing the rendered index succeeds and yields
/// one entry per recorded file, in order; and when the recorded paths are
/// pairwise distinct, the built map sends each recorded path to exactly
/// its metadata, with the offset the running counter assigned.
pub proof fn lemma_round_trip(rs: Seq<RecordModel>)
    requires
        records_clean(rs),
        distinct_paths(rs),
        sum_lens(rs) <= u64::MAX,
    ensures
        parse_index(render_index(rs)) == Ok::<_, Seq<char>>(asset_entries(rs)),
        forall|i: int|
            0 <= i < rs.len() ==> map_of(asset_entries(rs)).contains_key(
                (#[trigger] rs[i]).path,
            ) && map_of(asset_entries(rs))[rs[i].path] == (AssetModel {
                offset: offset_at(rs, i) as u64,
                len: rs[i].len,
                mime: rs[i].mime,
            }),
{
    lemma_sum_lens_nonneg(rs);
    lemma_parse_render_from(rs, 0);
    let es = asset_entries(rs);
    assert forall|i: int|
        0 <= i < rs.len() implies map_of(es).contains_key((#[trigger] rs[i]).path) && map_of(
        es,
    )[rs[i].path] == (AssetModel {
        offset: offset_at(rs, i) as u64,
        len: rs[i].len,
        mime: rs[i].mime,
    }) by {
        assert(es[i].0 == rs[i].path);
        assert forall|j: int| i < j < es.len() implies (#[trigger] es[j]).0 != es[i].0 by {
            assert(es[j].0 == rs[j].path);
        }
        lemma_map_of_last(es, i);
    }
}

/// The byte content of the blob: every packed file's bytes, back to back,
/// in write order.
pub open spec fn blob_of(cs: Seq<Seq<u8>>) -> Seq<u8>
    decreases cs.len(),
{
    if cs.len() == 0 {
        Seq::empty()
    } else {
        blob_of(cs.drop_last()) + cs.last()
    }
}

/// The bytes handed to the blob agree with the recorded lengths.
pub open spec fn lens_match(rs: Seq<RecordModel>, cs: Seq<Seq<u8>>) -> bool {
    cs.len() == rs.len() && forall|i: int|
        0 <= i < rs.len() ==> (#[trigger] cs[i]).len() == rs[i].len
}

/// The recorded ranges tile the blob: they start at zero, abut with no gap
/// and no overlap, and end at the total size.
pub proof fn lemma_offsets_partition(rs: Seq<RecordModel>)
    ensures
        offset_at(rs, 0) == 0,
        forall|i: int|
            0 <= i < rs.len() ==> offset_at(rs, i + 1) == offset_at(rs, i) + (
            #[trigger] rs[i]).len,
        offset_at(rs, rs.len() as int) == sum_lens(rs),
        forall|i: int| 0 <= i <= rs.len() ==> 0 <= #[trigger] offset_at(rs, i) <= sum_lens(rs),
{
    assert(rs.take(0) =~= Seq::<RecordModel>::empty());
    assert(rs.take(rs.len() as int) =~= rs);
    assert forall|i: int|
        0 <= i < rs.len() implies offset_at(rs, i + 1) == offset_at(rs, i) + (
    #[trigger] rs[i]).len by {
        let t = rs.take(i + 1);
        assert(t.drop_last() =~= rs.take(i));
        assert(t.last() == rs[i]);
    }
    assert forall|i: int| 0 <= i <= rs.len() implies 0 <= #[trigger] offset_at(rs, i)
        <= sum_lens(rs) by {
        lemma_sum_lens_prefix(rs, i);
    }
}

/// Size invariant and slice recovery: the blob is exactly as long as the
/// recorded lengths sum to, and the bytes at each recorded range are
/// exactly that file's bytes.
pub proof fn lemma_blob_layout(rs: Seq<RecordModel>, cs: Seq<Seq<u8>>)
    requires
        lens_match(rs, cs),
    ensures
        blob_of(cs).len() == sum_lens(rs),
        forall|i: int|
            0 <= i < rs.len() ==> blob_of(cs).subrange(
                offset_at(rs, i),
                offset_at(rs, i) + (#[trigger] rs[i]).len,
            ) == cs[i],
    decreases rs.len(),
{
    if rs.len() == 0 {
    } else {
        let d = rs.drop_last();
        let e = cs.drop_last();
        assert(lens_match(d, e)) by {
            assert(forall|i: int| 0 <= i < d.len() ==> (#[trigger] e[i]) == cs[i] && d[i] == rs[i]);
        }
        lemma_blob_layout(d, e);
        assert(cs.last().len() == rs.last().len);
        assert(blob_of(cs).len() == sum_lens(rs));
        lemma_offsets_partition(rs);
        lemma_offsets_partition(d);
        assert forall|i: int|
            0 <= i < rs.len() implies blob_of(cs).subrange(
            offset_at(rs, i),
            offset_at(rs, i) + (#[trigger] rs[i]).len,
        ) == cs[i] by {
            if i < rs.len() - 1 {
                assert(rs.take(i) =~= d.take(i));
                assert(offset_at(rs, i) == offset_at(d, i));
                assert(d[i] == rs[i] && e[i] == cs[i]);
                lemma_sum_lens_prefix(d, i + 1);
                assert(rs.take(i + 1) =~= d.take(i + 1));
                assert(offset_at(rs, i) + rs[i].len == offset_at(d, i + 1));
                assert(blob_of(cs).subrange(offset_at(rs, i), offset_at(rs, i) + rs[i].len)
                    =~= blob_of(e).subrange(offset_at(d, i), offset_at(d, i) + d[i].len));
            } else {
                assert(i == rs.len() - 1);
                assert(rs.take(i) =~= d);
                assert(offset_at(rs, i) == sum_lens(d));
                assert(cs[i] == cs.last() && rs[i] == rs.last());
                assert(blob_of(cs).subrange(offset_at(rs, i), offset_at(rs, i) + rs[i].len)
                    =~= cs.last());
            }
        }
    }
}

/// What one build says of one of its records: the map entry of its path,
/// and the blob bytes of its range.
proof fn lemma_asset_of_record(rs: Seq<RecordModel>, cs: Seq<Seq<u8>>, i: int)
    requires
        records_clean(rs),
        distinct_paths(rs),
        sum_lens(rs) <= u64::MAX,
        lens_match(rs, cs),
        0 <= i < rs.len(),
    ensures
        map_of(asset_entries(rs)).contains_key(rs[i].path),
        map_of(asset_entries(rs))[rs[i].path] == (AssetModel {
            offset: offset_at(rs, i) as u64,
            len: rs[i].len,
            mime: rs[i].mime,
        }),
        0 <= offset_at(rs, i),
        offset_at(rs, i) + rs[i].len <= sum_lens(rs),
        blob_of(cs).subrange(offset_at(rs, i), offset_at(rs, i) + rs[i].len) == cs[i],
{
    lemma_round_trip(rs);
    lemma_blob_layout(rs, cs);
    lemma_offsets_partition(rs);
    assert(offset_at(rs, i + 1) == offset_at(rs, i) + rs[i].len);
}

/// Some record carries this path.
pub open spec fn has_path(rs: Seq<RecordModel>, p: Seq<char>) -> bool {
    exists|i: int| 0 <= i < rs.len() && (#[trigger] rs[i]).path == p
}

/// A path is a key of the built map exactly when some record carries it.
proof fn lemma_contains_is_has_path(rs: Seq<RecordModel>, p: Seq<char>)
    ensures
        map_of(asset_entries(rs)).contains_key(p) <==> has_path(rs, p),
{
    lemma_map_of_contains(asset_entries(rs));
    if map_of(asset_entries(rs)).contains_key(p) {
        let i = choose|i: int|
            0 <= i < asset_entries(rs).len() && (#[trigger] asset_entries(rs)[i]).0 == p;
        assert(rs[i].path == p);
    }
    if has_path(rs, p) {
        let i = choose|i: int| 0 <= i < rs.len() && (#[trigger] rs[i]).path == p;
        assert((asset_entries(rs)[i]).0 == p);
    }
}

/// Rebuilding against an unchanged source packs the same assets even when
/// the traversal order differs: the two maps hold the same set of paths;
/// each path keeps its length and content type; and the blob bytes inside
/// each path's range are the same file bytes either time. Only the offsets
/// may differ.
pub proof fn lemma_rebuild_same_assets(
    rs1: Seq<RecordModel>,
    cs1: Seq<Seq<u8>>,
    rs2: Seq<RecordModel>,
    cs2: Seq<Seq<u8>>,
)
    requires
        records_clean(rs1),
        distinct_paths(rs1),
        sum_lens(rs1) <= u64::MAX,
        lens_match(rs1, cs1),
        records_clean(rs2),
        distinct_paths(rs2),
        sum_lens(rs2) <= u64::MAX,
        lens_match(rs2, cs2),
        // both traversals met the same set of relative paths
        forall|p: Seq<char>|
            #![trigger has_path(rs1, p)]
            #![trigger has_path(rs2, p)]
            has_path(rs1, p) <==> has_path(rs2, p),
        // and a path named the same file bytes and metadata either time
        forall|i: int, j: int|
            #![trigger rs1[i], rs2[j]]
            0 <= i < rs1.len() && 0 <= j < rs2.len() && rs1[i].path == rs2[j].path ==> rs1[i]
                == rs2[j] && cs1[i] == cs2[j],
    ensures
        map_of(asset_entries(rs1)).dom() == map_of(asset_entries(rs2)).dom(),
        forall|p: Seq<char>|
            #[trigger] map_of(asset_entries(rs1)).contains_key(p) ==> ({
                let a1 = map_of(asset_entries(rs1))[p];
                let a2 = map_of(asset_entries(rs2))[p];
                &&& a1.len == a2.len
                &&& a1.mime == a2.mime
                &&& blob_of(cs1).subrange(a1.offset as int, a1.offset as int + a1.len) == blob_of(
                    cs2,
                ).subrange(a2.offset as int, a2.offset as int + a2.len)
            }),
{
    let m1 = map_of(asset_entries(rs1));
    let m2 = map_of(asset_entries(rs2));
    assert forall|p: Seq<char>| #[trigger] m1.contains_key(p) <==> #[trigger] m2.contains_key(
        p,
    ) by {
        lemma_contains_is_has_path(rs1, p);
        lemma_contains_is_has_path(rs2, p);
    }
    assert(m1.dom() =~= m2.dom());
    assert forall|p: Seq<char>| #[trigger] m1.contains_key(p) implies ({
        let a1 = m1[p];
        let a2 = m2[p];
        &&& a1.len == a2.len
        &&& a1.mime == a2.mime
        &&& blob_of(cs1).subrange(a1.offset as int, a1.offset as int + a1.len) == blob_of(
            cs2,
        ).subrange(a2.offset as int, a2.offset as int + a2.len)
    }) by {
        lemma_contains_is_has_path(rs1, p);
        lemma_contains_is_has_path(rs2, p);
        let i = choose|i: int| 0 <= i < rs1.len() && (#[trigger] rs1[i]).path == p;
        let j = choose|j: int| 0 <= j < rs2.len() && (#[trigger] rs2[j]).path == p;
        assert(rs1[i] == rs2[j] && cs1[i] == cs2[j]);
        lemma_asset_of_record(rs1, cs1, i);
        lemma_asset_of_record(rs2, cs2, j);
    }
}

} // verus!
