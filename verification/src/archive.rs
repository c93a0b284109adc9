//! The archive-building side: destination validation, relative-path
//! computation, and the writer state that threads a running byte offset
//! through the build, emitting one index line per file.
//!
//! The builder does no I/O itself. The caller walks the source tree, hands
//! each regular file's relative path and byte length to
//! [`AssetArhiver::record_file`], writes the returned index line to the
//! index stream and the file's bytes to the blob stream.

use vstd::prelude::*;

use crate::asset::ArchiveError;
use crate::text::{dec_str, delim, no_delim, no_newline, u64_to_dec};

verus! {

/// The content-type string that the MIME resolver guesses for a path.
pub uninterp spec fn mime_of(path: Seq<char>) -> Seq<char>;

/// A content-type value that cannot corrupt an index line: it holds no
/// field delimiter and no newline.
pub open spec fn mime_clean(m: Seq<char>) -> bool {
    no_delim(m) && no_newline(m)
}

/// A relative path that cannot corrupt an index line: it holds no field
/// delimiter, no newline, and does not end in `/` (which would fuse with
/// the delimiter that follows it).
pub open spec fn path_clean(p: Seq<char>) -> bool {
    no_delim(p) && no_newline(p) && (p.len() == 0 || p.last() != '/')
}

/// Relies on `mime_guess::from_path(..).first()`: the guess is looked up
/// in a fixed table keyed by the path's extension alone, so it is a
/// function of the path and nothing else; every table entry is a plain
/// `type/subtype` string, which holds no `//` and no newline, and a
/// missing guess becomes the empty string, which is clean as well.
/// `Mime` renders as exactly the table string it was read from.
#[verifier::external_body]
fn guess_mime(path: &str) -> (r: String)
    ensures
        r@ == mime_of(path@) && mime_clean(r@),
{
    match mime_guess::from_path(path).first() {
        Some(m) => m.to_string(),
        None => String::new(),
    }
}

/// What one file's metadata looked like when it was packed.
pub ghost struct RecordModel {
    pub path: Seq<char>,
    pub len: u64,
    pub mime: Seq<char>,
}

/// Total byte length of the recorded files.
pub open spec fn sum_lens(rs: Seq<RecordModel>) -> int
    decreases rs.len(),
{
    if rs.len() == 0 {
        0
    } else {
        sum_lens(rs.drop_last()) + rs.last().len
    }
}

/// Blob offset of the `i`-th recorded file: the bytes of all files packed
/// before it.
pub open spec fn offset_at(rs: Seq<RecordModel>, i: int) -> int {
    sum_lens(rs.take(i))
}

/// One index line: `path//offset//length//mime` with a terminating newline.
pub open spec fn index_line(path: Seq<char>, offset: int, len: int, mime: Seq<char>) -> Seq<char> {
    path + delim() + dec_str(offset) + delim() + dec_str(len) + delim() + mime + seq!['\n']
}

/// The index text of the records from `rs`, the first of them placed at
/// blob offset `base`.
pub open spec fn render_from(rs: Seq<RecordModel>, base: int) -> Seq<char>
    decreases rs.len(),
{
    if rs.len() == 0 {
        Seq::empty()
    } else {
        index_line(rs[0].path, base, rs[0].len as int, rs[0].mime) + render_from(
            rs.skip(1),
            base + rs[0].len,
        )
    }
}

/// The full index text of a build: every record's line, in write order.
pub open spec fn render_index(rs: Seq<RecordModel>) -> Seq<char> {
    render_from(rs, 0)
}

pub proof fn lemma_sum_lens_nonneg(rs: Seq<RecordModel>)
    ensures
        sum_lens(rs) >= 0,
    decreases rs.len(),
{
    if rs.len() > 0 {
        lemma_sum_lens_nonneg(rs.drop_last());
    }
}

pub proof fn lemma_sum_lens_push(rs: Seq<RecordModel>, r: RecordModel)
    ensures
        sum_lens(rs.push(r)) == sum_lens(rs) + r.len,
{
    assert(rs.push(r).drop_last() =~= rs);
    assert(rs.push(r).last() == r);
}

pub proof fn lemma_sum_lens_cons(rs: Seq<RecordModel>)
    requires
        rs.len() > 0,
    ensures
        sum_lens(rs) == rs[0].len + sum_lens(rs.skip(1)),
    decreases rs.len(),
{
    if rs.len() == 1 {
        assert(rs.skip(1) =~= Seq::<RecordModel>::empty());
        assert(rs.drop_last() =~= Seq::<RecordModel>::empty());
    } else {
        let d = rs.drop_last();
        lemma_sum_lens_cons(d);
        assert(rs.skip(1).drop_last() =~= d.skip(1));
        assert(rs.skip(1).last() == rs.last());
        assert(d[0] == rs[0]);
    }
}

/// Appending one record appends one line, placed at the end of the bytes
/// already packed.
pub proof fn lemma_render_push(rs: Seq<RecordModel>, r: RecordModel, base: int)
    ensures
        render_from(rs.push(r), base) == render_from(rs, base) + index_line(
            r.path,
            base + sum_lens(rs),
            r.len as int,
            r.mime,
        ),
    decreases rs.len(),
{
    if rs.len() == 0 {
        assert(rs.push(r) =~= seq![r]);
        assert(seq![r][0] == r);
        assert(seq![r].skip(1) =~= Seq::<RecordModel>::empty());
        assert(sum_lens(rs) == 0);
        assert(render_from(rs, base) == Seq::<char>::empty());
        assert(render_from(seq![r].skip(1), base + r.len) == Seq::<char>::empty());
        assert(render_from(rs.push(r), base) == index_line(r.path, base, r.len as int, r.mime)
            + render_from(seq![r].skip(1), base + r.len));
        assert(Seq::<char>::empty() + index_line(r.path, base, r.len as int, r.mime) =~= index_line(
            r.path,
            base,
            r.len as int,
            r.mime,
        ));
        assert(index_line(r.path, base, r.len as int, r.mime) + Seq::<char>::empty() =~= index_line(
            r.path,
            base,
            r.len as int,
            r.mime,
        ));
    } else {
        let line0 = index_line(rs[0].path, base, rs[0].len as int, rs[0].mime);
        let lr = index_line(r.path, base + sum_lens(rs), r.len as int, r.mime);
        assert(rs.push(r)[0] == rs[0]);
        assert(rs.push(r).skip(1) =~= rs.skip(1).push(r));
        lemma_render_push(rs.skip(1), r, base + rs[0].len);
        lemma_sum_lens_cons(rs);
        assert(render_from(rs.push(r), base) == line0 + render_from(
            rs.skip(1).push(r),
            base + rs[0].len,
        ));
        assert(render_from(rs.skip(1).push(r), base + rs[0].len) == render_from(
            rs.skip(1),
            base + rs[0].len,
        ) + lr);
        assert(render_from(rs, base) == line0 + render_from(rs.skip(1), base + rs[0].len));
        assert(line0 + (render_from(rs.skip(1), base + rs[0].len) + lr) =~= (line0 + render_from(
            rs.skip(1),
            base + rs[0].len,
        )) + lr);
    }
}

/// What a destination path was observed to be before the build.
#[derive(Debug, Clone, Copy, PartialEq, Eq)]
pub enum TargetKind {
    /// Nothing exists at the path.
    Missing,
    /// A regular file or a symlink occupies the path.
    FileOrSymlink,
    /// Something else (such as a directory) occupies the path.
    Other,
}

/// Destination validation: whether the build may proceed at a path of the
/// observed kind, and whether the occupant must be removed first.
pub open spec fn spec_check_path(kind: TargetKind, overwrite_existing: bool) -> Result<
    bool,
    ArchiveError,
> {
    match kind {
        TargetKind::Missing => Ok(false),
        TargetKind::FileOrSymlink => if overwrite_existing {
            Ok(true)
        } else {
            Err(ArchiveError::AlreadyExists)
        },
        TargetKind::Other => Err(ArchiveError::InvalidTarget),
    }
}

/// Builder of one archive: the destination of the blob bytes and index
/// lines of the files recorded so far, keeping the running byte offset.
pub struct AssetArhiver {
    offset: u64,
    records: Ghost<Seq<RecordModel>>,
}

impl AssetArhiver {
    /// The files recorded so far, in write order.
    pub closed spec fn records(&self) -> Seq<RecordModel> {
        self.records@
    }

    #[verifier::type_invariant]
    spec fn wf(&self) -> bool {
        self.offset as int == sum_lens(self.records@)
    }

    /// A builder with nothing packed yet: the next file goes at offset 0.
    pub fn new() -> (r: AssetArhiver)
        ensures
            r.records() == Seq::<RecordModel>::empty(),
    {
        AssetArhiver { offset: 0, records: Ghost(Seq::empty()) }
    }

    /// Decides whether a destination path of the observed kind may be
    /// (re)used. `Ok(true)` tells the caller to remove the occupant first;
    /// on any `Err` the destination is to be left untouched.
    pub fn check_path(kind: TargetKind, overwrite_existing: bool) -> (r: Result<bool, ArchiveError>)
        ensures
            r == spec_check_path(kind, overwrite_existing),
    {
        match kind {
            TargetKind::Missing => Ok(false),
            TargetKind::FileOrSymlink => {
                if overwrite_existing {
                    Ok(true)
                } else {
                    Err(ArchiveError::AlreadyExists)
                }
            },
            TargetKind::Other => Err(ArchiveError::InvalidTarget),
        }
    }

    /// The blob offset at which the next recorded file's bytes will start.
    pub fn current_offset(&self) -> (r: u64)
        ensures
            r as int == sum_lens(self.records()),
    {
        proof {
            use_type_invariant(&*self);
        }
        self.offset
    }

    /// Records one regular file: resolves its content type, appends its
    /// metadata to the build, advances the running offset by the file's
    /// length, and returns the file's index line.
    pub fn record_file(&mut self, rel_path: &str, len: u64) -> (line: String)
        requires
            sum_lens(old(self).records()) + len <= u64::MAX,
        ensures
            final(self).records() == old(self).records().push(
                RecordModel { path: rel_path@, len, mime: mime_of(rel_path@) },
            ),
            line@ == index_line(
                rel_path@,
                sum_lens(old(self).records()),
                len as int,
                mime_of(rel_path@),
            ),
            mime_clean(mime_of(rel_path@)),
    {
        proof {
            use_type_invariant(&*self);
            reveal_strlit("//");
            reveal_strlit("\n");
        }
        let ghost old_records = self.records@;
        let off_str = u64_to_dec(self.offset);
        let len_str = u64_to_dec(len);
        let mime = guess_mime(rel_path);
        let mut line = String::from_str(rel_path);
        line.append("//");
        line.append(off_str.as_str());
        line.append("//");
        line.append(len_str.as_str());
        line.append("//");
        line.append(mime.as_str());
        line.append("\n");
        proof {
            assert("//"@ =~= delim());
            assert("\n"@ =~= seq!['\n']);
            assert(line@ =~= index_line(
                rel_path@,
                self.offset as int,
                len as int,
                mime_of(rel_path@),
            ));
        }
        proof {
            lemma_sum_lens_push(
                old_records,
                RecordModel { path: rel_path@, len, mime: mime_of(rel_path@) },
            );
        }
        let ghost new_records = old_records.push(
            RecordModel { path: rel_path@, len, mime: mime_of(rel_path@) },
        );
        *self = AssetArhiver { offset: self.offset + len, records: Ghost(new_records) };
        line
    }
}

/// Strips one trailing `/` from the source root, as the build does before
/// computing relative paths.
pub fn normalize_root(dir: &str) -> (r: &str)
    ensures
        dir@.len() > 0 && dir@.last() == '/' ==> r@ == dir@.drop_last(),
        !(dir@.len() > 0 && dir@.last() == '/') ==> r@ == dir@,
{
    let n = dir.unicode_len();
    if n > 0 && dir.get_char(n - 1) == '/' {
        let r = dir.substring_char(0, n - 1);
        proof {
            assert(dir@.subrange(0, n as int - 1) =~= dir@.drop_last());
        }
        r
    } else {
        dir
    }
}

/// `full` lies under the root `base` with this relative remainder.
pub open spec fn is_under(base: Seq<char>, full: Seq<char>) -> bool {
    full.len() > base.len() && full.take(base.len() as int) == base && full[base.len() as int]
        == '/'
}

/// The path of `full` relative to the root `base`: the remainder after the
/// root prefix and its trailing separator, or `None` when `full` does not
/// lie under `base`.
pub fn relative_path(base: &str, full: &str) -> (r: Option<String>)
    ensures
        match r {
            Some(rel) => is_under(base@, full@) && rel@ == full@.skip(base@.len() as int + 1),
            None => !is_under(base@, full@),
        },
{
    let nb = base.unicode_len();
    let nf = full.unicode_len();
    if nf <= nb {
        return None;
    }
    let mut i: usize = 0;
    while i < nb
        invariant
            0 <= i <= nb,
            nb == base@.len(),
            nf == full@.len(),
            nb < nf,
            forall|j: int| 0 <= j < i ==> full@[j] == base@[j],
        decreases nb - i,
    {
        if full.get_char(i) != base.get_char(i) {
            proof {
                if full@.take(nb as int) == base@ {
                    assert(full@.take(nb as int)[i as int] == base@[i as int]);
                }
            }
            return None;
        }
        i = i + 1;
    }
    proof {
        assert(full@.take(nb as int) =~= base@);
    }
    if full.get_char(nb) != '/' {
        return None;
    }
    let rel = full.substring_char(nb + 1, nf);
    proof {
        assert(full@.subrange(nb as int + 1, nf as int) =~= full@.skip(nb as int + 1));
    }
    Some(String::from_str(rel))
}

} // verus!
