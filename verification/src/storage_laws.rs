//! What holds of reads and writes as a whole: the files of a torrent are one
//! sequence of bytes.
use vstd::prelude::*;
use crate::meta::{FileView, InfoView, ModeView};
use crate::storage::{
    file_lengths, files_to_make, lemma_sum_grows, mode_size, path_on_disk, read_from, read_plan, smaller, sum,
    write_from, write_plan, ExtentView,
};

verus! {

/// The bytes of the files from file `i` on, one file behind the other.
pub open spec fn bytes_from(disk: Seq<Seq<u8>>, i: int) -> Seq<u8>
    decreases disk.len() - i,
{
    if 0 <= i < disk.len() {
        disk[i] + bytes_from(disk, i + 1)
    } else {
        seq![]
    }
}

/// The bytes of a torrent whose files hold `disk`.
pub open spec fn torrent_bytes(disk: Seq<Seq<u8>>) -> Seq<u8> {
    bytes_from(disk, 0)
}

/// Whether every file is there and has the length that it should have.
pub open spec fn is_complete(disk: Seq<Seq<u8>>, present: Seq<bool>, lengths: Seq<int>) -> bool {
    &&& disk.len() == lengths.len()
    &&& present.len() == lengths.len()
    &&& forall|i: int| 0 <= i < lengths.len() ==> (#[trigger] disk[i]).len() == lengths[i]
    &&& forall|i: int| 0 <= i < lengths.len() ==> #[trigger] present[i]
}

/// What is read where `extents` say.
pub open spec fn gathered(disk: Seq<Seq<u8>>, extents: Seq<ExtentView>) -> Seq<u8>
    decreases extents.len(),
{
    if extents.len() == 0 {
        seq![]
    } else {
        let e = extents[0];
        disk[e.file].subrange(e.start, e.start + e.len) + gathered(disk, extents.skip(1))
    }
}

/// `bytes` with `data` in place of as many bytes from `start` on. No data changes
/// nothing, wherever it is written.
pub open spec fn overwritten(bytes: Seq<u8>, start: int, data: Seq<u8>) -> Seq<u8> {
    if data.len() == 0 {
        bytes
    } else {
        bytes.take(start) + data + bytes.skip(start + data.len())
    }
}

/// The files after `data` was written where `extents` say.
pub open spec fn written(disk: Seq<Seq<u8>>, extents: Seq<ExtentView>, data: Seq<u8>) -> Seq<Seq<u8>>
    decreases extents.len(),
{
    if extents.len() == 0 {
        disk
    } else {
        let e = extents[0];
        written(
            disk.update(e.file, overwritten(disk[e.file], e.start, data.subrange(e.at, e.at + e.len))),
            extents.skip(1),
            data,
        )
    }
}

proof fn lemma_bytes_length(disk: Seq<Seq<u8>>, lengths: Seq<int>, i: int)
    requires
        0 <= i <= disk.len() == lengths.len(),
        forall|k: int| 0 <= k < lengths.len() ==> (#[trigger] disk[k]).len() == lengths[k],
    ensures
        bytes_from(disk, i).len() == sum(lengths) - sum(lengths.take(i)),
    decreases disk.len() - i,
{
    if i < disk.len() {
        lemma_bytes_length(disk, lengths, i + 1);
        assert(lengths.take(i + 1).drop_last() =~= lengths.take(i));
    } else {
        assert(lengths.take(i) =~= lengths);
    }
}

/// Whether a file is needed for `len` bytes from `offset` on: it holds at least
/// one of them.
pub open spec fn is_needed(lengths: Seq<int>, k: int, offset: int, len: int) -> bool {
    let start = sum(lengths.take(k));
    start < offset + len && offset < start + lengths[k] && lengths[k] > 0 && len > 0
}

/// Whether the files have the lengths that they should have.
pub open spec fn has_lengths(disk: Seq<Seq<u8>>, lengths: Seq<int>) -> bool {
    &&& disk.len() == lengths.len()
    &&& forall|i: int| 0 <= i < lengths.len() ==> (#[trigger] disk[i]).len() == lengths[i]
}

proof fn lemma_gathered(
    disk: Seq<Seq<u8>>,
    present: Seq<bool>,
    lengths: Seq<int>,
    i: int,
    skipped: int,
    done: int,
    len: int,
)
    requires
        has_lengths(disk, lengths),
        0 <= i <= lengths.len(),
        0 <= skipped,
        0 <= done <= len,
        skipped + (len - done) <= bytes_from(disk, i).len(),
    ensures
        read_from(lengths, present, i, skipped, done, len) matches Some(plan) ==> gathered(disk, plan) == bytes_from(
            disk,
            i,
        ).subrange(skipped, skipped + (len - done)),
    decreases lengths.len() - i,
{
    let all = bytes_from(disk, i);
    let wanted = all.subrange(skipped, skipped + (len - done));
    if done >= len || i >= lengths.len() {
        assert(wanted =~= Seq::<u8>::empty());
    } else {
        let rest = bytes_from(disk, i + 1);
        assert(disk[i].len() == lengths[i]);
        if skipped >= lengths[i] {
            lemma_gathered(disk, present, lengths, i + 1, skipped - lengths[i], done, len);
            assert(wanted =~= rest.subrange(skipped - lengths[i], skipped - lengths[i] + (len - done)));
        } else if present[i] {
            let n = smaller(len - done, lengths[i] - skipped);
            lemma_gathered(disk, present, lengths, i + 1, 0, done + n, len);
            if let Some(later) = read_from(lengths, present, i + 1, 0, done + n, len) {
                let plan = read_from(lengths, present, i, skipped, done, len)->0;
                assert(plan.skip(1) =~= later);
                assert(wanted =~= disk[i].subrange(skipped, skipped + n) + rest.subrange(0, len - done - n));
            }
        }
    }
}

/// A plan is there unless a file is missing that is needed from file `i` on.
proof fn lemma_plan_is_there(
    present: Seq<bool>,
    lengths: Seq<int>,
    i: int,
    skipped: int,
    done: int,
    offset: int,
    len: int,
)
    requires
        present.len() == lengths.len(),
        forall|k: int| 0 <= k < lengths.len() ==> #[trigger] lengths[k] >= 0,
        0 <= i <= lengths.len(),
        0 <= skipped,
        0 <= done <= len,
        done > 0 ==> skipped == 0,
        done < len ==> sum(lengths.take(i)) + skipped == offset + done,
        0 < len <= done ==> sum(lengths.take(i)) >= offset + len,
    ensures
        read_from(lengths, present, i, skipped, done, len) is None <==> exists|k: int|
            i <= k < lengths.len() && !present[k] && #[trigger] is_needed(lengths, k, offset, len),
    decreases lengths.len() - i,
{
    if i < lengths.len() {
        assert(lengths.take(i + 1).drop_last() =~= lengths.take(i));
        assert(lengths[i] >= 0);
        if done >= len {
            assert forall|k: int| i <= k < lengths.len() implies !is_needed(lengths, k, offset, len) by {
                let some = lengths.take(k);
                assert forall|m: int| 0 <= m < some.len() implies #[trigger] some[m] >= 0 by {
                    assert(lengths[m] >= 0);
                }
                lemma_sum_grows(some, i);
                assert(some.take(i) =~= lengths.take(i));
            }
        } else if skipped >= lengths[i] {
            lemma_plan_is_there(present, lengths, i + 1, skipped - lengths[i], done, offset, len);
            assert(!is_needed(lengths, i, offset, len));
        } else if present[i] {
            let n = smaller(len - done, lengths[i] - skipped);
            lemma_plan_is_there(present, lengths, i + 1, 0, done + n, offset, len);
        } else {
            assert(is_needed(lengths, i, offset, len));
        }
    }
}

/// What is read for a range of a torrent are the bytes of that range. It can be
/// read if and only if every file is there that holds a part of it.
pub proof fn read_gives_the_range(
    mode: ModeView,
    present: Seq<bool>,
    disk: Seq<Seq<u8>>,
    offset: int,
    len: int,
)
    requires
        has_lengths(disk, file_lengths(mode)),
        present.len() == disk.len(),
        0 <= offset,
        0 <= len,
        offset + len <= mode_size(mode),
    ensures
        read_plan(mode, present, offset, len) matches Some(plan) ==> gathered(disk, plan) == torrent_bytes(
            disk,
        ).subrange(offset, offset + len),
        mode is Multi ==> (read_plan(mode, present, offset, len) is None <==> exists|k: int|
            0 <= k < disk.len() && !present[k] && #[trigger] is_needed(file_lengths(mode), k, offset, len)),
        is_complete(disk, present, file_lengths(mode)) ==> read_plan(mode, present, offset, len) is Some,
{
    let lengths = file_lengths(mode);
    lemma_bytes_length(disk, lengths, 0);
    assert(lengths.take(0) =~= Seq::<int>::empty());
    match mode {
        ModeView::Single { .. } => {
            let plan = read_plan(mode, present, offset, len)->0;
            assert(plan.skip(1) =~= Seq::<ExtentView>::empty());
            assert(disk[0] + bytes_from(disk, 1) =~= disk[0]);
            reveal_with_fuel(gathered, 2);
            assert(gathered(disk, plan) =~= disk[0].subrange(offset, offset + len));
        },
        ModeView::Multi { .. } => {
            lemma_gathered(disk, present, lengths, 0, offset, 0, len);
            assert forall|k: int| 0 <= k < lengths.len() implies #[trigger] lengths[k] >= 0 by {
                assert(disk[k].len() == lengths[k]);
            }
            lemma_plan_is_there(present, lengths, 0, offset, 0, offset, len);
        },
    }
}

proof fn lemma_same_bytes(a: Seq<Seq<u8>>, b: Seq<Seq<u8>>, i: int)
    requires
        a.len() == b.len(),
        0 <= i,
        forall|k: int| i <= k < a.len() ==> #[trigger] a[k] == b[k],
    ensures
        bytes_from(a, i) == bytes_from(b, i),
    decreases a.len() - i,
{
    if i < a.len() {
        lemma_same_bytes(a, b, i + 1);
    }
}

/// How many of `len` bytes from `offset` on lie within `size` bytes.
pub open spec fn room(size: int, offset: int, len: int) -> int {
    smaller(
        len,
        if offset <= size {
            size - offset
        } else {
            0
        },
    )
}

proof fn lemma_written(
    disk: Seq<Seq<u8>>,
    present: Seq<bool>,
    lengths: Seq<int>,
    data: Seq<u8>,
    i: int,
    skipped: int,
    done: int,
)
    requires
        is_complete(disk, present, lengths),
        0 <= i <= lengths.len(),
        0 <= skipped,
        0 <= done <= data.len(),
    ensures
        ({
            let after = written(disk, write_from(lengths, present, i, skipped, done, data.len() as int), data);
            &&& is_complete(after, present, lengths)
            &&& forall|k: int| 0 <= k < i ==> #[trigger] after[k] == disk[k]
            &&& bytes_from(after, i) == overwritten(
                bytes_from(disk, i),
                skipped,
                data.subrange(done, done + room(bytes_from(disk, i).len() as int, skipped, data.len() - done)),
            )
        }),
    decreases lengths.len() - i,
{
    let len = data.len() as int;
    let all = bytes_from(disk, i);
    let plan = write_from(lengths, present, i, skipped, done, len);
    let after = written(disk, plan, data);
    let fits = room(all.len() as int, skipped, len - done);
    let meant = overwritten(all, skipped, data.subrange(done, done + fits));
    if i < lengths.len() {
        let rest = bytes_from(disk, i + 1);
        assert(disk[i].len() == lengths[i]);
        if skipped >= lengths[i] {
            lemma_written(disk, present, lengths, data, i + 1, skipped - lengths[i], done);
            assert(after[i] == disk[i]);
            assert(fits == room(rest.len() as int, skipped - lengths[i], len - done));
            assert(meant =~= disk[i] + overwritten(rest, skipped - lengths[i], data.subrange(done, done + fits)));
        } else {
            assert(present[i]);
            let n = smaller(len - done, lengths[i] - skipped);
            let e = ExtentView { file: i, start: skipped, at: done, len: n };
            let part = data.subrange(done, done + n);
            let middle = disk.update(i, overwritten(disk[i], skipped, part));
            assert(is_complete(middle, present, lengths)) by {
                assert forall|k: int| 0 <= k < lengths.len() implies (#[trigger] middle[k]).len() == lengths[k] by {
                    assert(disk[k].len() == lengths[k]);
                }
            }
            lemma_same_bytes(middle, disk, i + 1);
            assert(plan[0] == e);
            if done + n >= len {
                assert(plan.skip(1) =~= Seq::<ExtentView>::empty());
                reveal_with_fuel(written, 2);
                assert(after == middle);
                assert(fits == n);
                assert(meant =~= overwritten(disk[i], skipped, part) + rest);
            } else {
                let later = write_from(lengths, present, i + 1, 0, done + n, len);
                assert(plan.skip(1) =~= later);
                lemma_written(middle, present, lengths, data, i + 1, 0, done + n);
                assert(after == written(middle, later, data));
                assert(after[i] == middle[i]);
                assert forall|k: int| 0 <= k < i implies #[trigger] after[k] == disk[k] by {
                    assert(after[k] == middle[k]);
                }
                let more = room(rest.len() as int, 0, len - done - n);
                assert(fits == n + more);
                assert(data.subrange(done, done + fits) =~= part + data.subrange(done + n, done + n + more));
                assert(meant =~= overwritten(disk[i], skipped, part) + overwritten(
                    rest,
                    0,
                    data.subrange(done + n, done + n + more),
                ));
            }
        }
    } else {
        assert(meant =~= all);
    }
}

/// A write to a complete torrent changes the bytes of its range to the data, and
/// no others. What reaches past the end is not written, and no file grows.
pub proof fn write_changes_the_range(
    mode: ModeView,
    present: Seq<bool>,
    disk: Seq<Seq<u8>>,
    offset: int,
    data: Seq<u8>,
)
    requires
        is_complete(disk, present, file_lengths(mode)),
        0 <= offset,
    ensures
        ({
            let after = written(disk, write_plan(mode, present, offset, data.len() as int), data);
            &&& is_complete(after, present, file_lengths(mode))
            &&& torrent_bytes(after) == overwritten(
                torrent_bytes(disk),
                offset,
                data.take(room(mode_size(mode), offset, data.len() as int)),
            )
            &&& offset + data.len() <= mode_size(mode) ==> torrent_bytes(after) == overwritten(
                torrent_bytes(disk),
                offset,
                data,
            )
        }),
{
    let lengths = file_lengths(mode);
    let len = data.len() as int;
    lemma_bytes_length(disk, lengths, 0);
    assert(lengths.take(0) =~= Seq::<int>::empty());
    let fits = room(mode_size(mode), offset, len);
    let part = data.take(fits);
    assert(offset + len <= mode_size(mode) ==> part =~= data);
    match mode {
        ModeView::Single { length } => {
            let plan = write_plan(mode, present, offset, len);
            let after = written(disk, plan, data);
            assert(disk[0].len() == lengths[0]);
            assert(disk[0] + bytes_from(disk, 1) =~= disk[0]);
            assert(plan.skip(1) =~= Seq::<ExtentView>::empty());
            assert(data.subrange(0, fits) =~= part);
            let middle = disk.update(0, overwritten(disk[0], offset, part));
            reveal_with_fuel(written, 2);
            assert(after == middle);
            assert(middle[0] + bytes_from(middle, 1) =~= middle[0]);
        },
        ModeView::Multi { .. } => {
            lemma_written(disk, present, lengths, data, 0, offset, 0);
            assert(data.subrange(0, fits) =~= part);
        },
    }
}

/// What was written is read back.
pub proof fn read_gives_back_what_was_written(
    mode: ModeView,
    present: Seq<bool>,
    disk: Seq<Seq<u8>>,
    offset: int,
    data: Seq<u8>,
)
    requires
        is_complete(disk, present, file_lengths(mode)),
        0 <= offset,
        offset + data.len() <= mode_size(mode),
    ensures
        read_plan(mode, present, offset, data.len() as int) matches Some(plan) && gathered(
            written(disk, write_plan(mode, present, offset, data.len() as int), data),
            plan,
        ) == data,
{
    let after = written(disk, write_plan(mode, present, offset, data.len() as int), data);
    write_changes_the_range(mode, present, disk, offset, data);
    read_gives_the_range(mode, present, after, offset, data.len() as int);
    lemma_bytes_length(disk, file_lengths(mode), 0);
    assert(file_lengths(mode).take(0) =~= Seq::<int>::empty());
    assert(overwritten(torrent_bytes(disk), offset, data).subrange(offset, offset + data.len()) =~= data);
}

/// Every file that has a path is among those that are made before a download
/// starts, with its length and where it is read and written.
pub proof fn every_file_with_a_path_is_made(info: InfoView, i: int)
    requires
        0 <= i < file_lengths(info.mode).len(),
        info.mode matches ModeView::Multi { files } ==> files[i].path.len() > 0,
    ensures
        exists|k: int|
            0 <= k < files_to_make(info, file_lengths(info.mode).len() as int).len() && ({
                let f = #[trigger] files_to_make(info, file_lengths(info.mode).len() as int)[k];
                f.path == path_on_disk(info, i) && f.length == file_lengths(info.mode)[i]
            }),
{
    lemma_made(info, file_lengths(info.mode).len() as int, i);
}

proof fn lemma_made(info: InfoView, n: int, i: int)
    requires
        0 <= i < n <= file_lengths(info.mode).len(),
        info.mode matches ModeView::Multi { files } ==> files[i].path.len() > 0,
    ensures
        exists|k: int|
            0 <= k < files_to_make(info, n).len() && ({
                let f = #[trigger] files_to_make(info, n)[k];
                f.path == path_on_disk(info, i) && f.length == file_lengths(info.mode)[i]
            }),
    decreases n,
{
    let made = files_to_make(info, n);
    if i < n - 1 {
        lemma_made(info, n - 1, i);
        let fewer = files_to_make(info, n - 1);
        let k = choose|k: int|
            0 <= k < fewer.len() && ({
                let f = #[trigger] fewer[k];
                f.path == path_on_disk(info, i) && f.length == file_lengths(info.mode)[i]
            });
        assert(made[k] == fewer[k]);
    } else {
        assert(made[made.len() - 1].path == path_on_disk(info, i));
    }
}

/// The path of a file on disk is the name of the torrent and behind it, where there
/// are several files, every part of the path in the metainfo, each in its place.
pub proof fn a_path_on_disk_has_every_part(info: InfoView, i: int)
    requires
        0 <= i < file_lengths(info.mode).len(),
    ensures
        path_on_disk(info, i).len() > 0,
        path_on_disk(info, i)[0] == info.name,
        info.mode is Single ==> path_on_disk(info, i).len() == 1,
        info.mode matches ModeView::Multi { files } ==> {
            &&& path_on_disk(info, i).len() == 1 + files[i].path.len()
            &&& forall|k: int|
                0 <= k < files[i].path.len() ==> #[trigger] files[i].path[k] == path_on_disk(info, i)[k + 1]
        },
{
}

/// Files that have different paths in the metainfo have different paths on disk.
pub proof fn different_files_lie_at_different_places(info: InfoView, i: int, j: int)
    requires
        info.mode is Multi,
        0 <= i < file_lengths(info.mode).len(),
        0 <= j < file_lengths(info.mode).len(),
        path_on_disk(info, i) == path_on_disk(info, j),
    ensures
        info.mode->Multi_files[i].path == info.mode->Multi_files[j].path,
{
    let files = info.mode->Multi_files;
    a_path_on_disk_has_every_part(info, i);
    a_path_on_disk_has_every_part(info, j);
    assert(files[i].path =~= files[j].path);
}

/// The smaller of two numbers is one of them, and neither is below it.
pub proof fn the_smaller_of_two(a: int, b: int)
    ensures
        smaller(a, b) <= a,
        smaller(a, b) <= b,
        smaller(a, b) == a || smaller(a, b) == b,
{
}

/// A torrent that is a file has as many bytes as the file, and one more file adds as
/// many bytes as it has.
pub proof fn a_torrent_is_as_long_as_its_files(length: u64, files: Seq<FileView>, file: FileView)
    ensures
        mode_size(ModeView::Single { length }) == length,
        mode_size(ModeView::Multi { files: seq![] }) == 0,
        mode_size(ModeView::Multi { files: files.push(file) }) == mode_size(ModeView::Multi { files }) + file.length,
        file_lengths(ModeView::Single { length }) == seq![length as int],
        file_lengths(ModeView::Multi { files }).len() == files.len(),
        forall|i: int| 0 <= i < files.len() ==> #[trigger] file_lengths(ModeView::Multi { files })[i] == files[i].length,
{
    let one = file_lengths(ModeView::Single { length });
    assert(one.drop_last() =~= Seq::<int>::empty());
    assert(sum(one) == sum(one.drop_last()) + one.last());
    let fewer = file_lengths(ModeView::Multi { files });
    let all = file_lengths(ModeView::Multi { files: files.push(file) });
    assert(all.drop_last() =~= fewer);
    assert(file_lengths(ModeView::Multi { files: seq![] }) =~= Seq::<int>::empty());
}

/// One more file is made with one more file in the metainfo that has a path, behind
/// the others, under its path and of its full length. Nothing is made for a file
/// without a path.
pub proof fn one_more_file_is_one_more_to_make(info: InfoView, files: Seq<FileView>, file: FileView)
    ensures
        ({
            let before = InfoView { mode: ModeView::Multi { files }, ..info };
            let after = InfoView { mode: ModeView::Multi { files: files.push(file) }, ..info };
            let n = files.len() as int;
            &&& files_to_make(before, 0) == Seq::<FileView>::empty()
            &&& file.path.len() == 0 ==> files_to_make(after, n + 1) == files_to_make(before, n)
            &&& file.path.len() > 0 ==> files_to_make(after, n + 1) == files_to_make(before, n).push(
                FileView { length: file.length, path: seq![info.name] + file.path },
            )
        }),
{
    let before = InfoView { mode: ModeView::Multi { files }, ..info };
    let after = InfoView { mode: ModeView::Multi { files: files.push(file) }, ..info };
    lemma_same_to_make(info, files, file, files.len() as int);
    assert(files.push(file)[files.len() as int] == file);
}

proof fn lemma_same_to_make(info: InfoView, files: Seq<FileView>, file: FileView, n: int)
    requires
        0 <= n <= files.len(),
    ensures
        files_to_make(InfoView { mode: ModeView::Multi { files: files.push(file) }, ..info }, n) == files_to_make(
            InfoView { mode: ModeView::Multi { files }, ..info },
            n,
        ),
    decreases n,
{
    if n > 0 {
        lemma_same_to_make(info, files, file, n - 1);
        assert(files.push(file)[n - 1] == files[n - 1]);
    }
}

/// A torrent that is a file makes that file, under its name and of its full length.
pub proof fn a_single_file_is_made(info: InfoView)
    requires
        info.mode is Single,
    ensures
        files_to_make(info, 1) == seq![FileView { length: info.mode->length, path: seq![info.name] }],
{
    reveal_with_fuel(files_to_make, 2);
}

/// Whether `extents` take up a buffer from `at` on, one behind the other, each in a
/// file behind the one before, within its length and, but for the first, from its
/// beginning on.
pub open spec fn fills(lengths: Seq<int>, present: Seq<bool>, extents: Seq<ExtentView>, at: int) -> bool {
    &&& forall|k: int|
        0 <= k < extents.len() ==> 0 <= (#[trigger] extents[k]).file < lengths.len() && present[extents[k].file] && 0
            <= extents[k].start && 0 <= extents[k].len && extents[k].start + extents[k].len
            <= lengths[extents[k].file]
    &&& extents.len() > 0 ==> extents[0].at == at
    &&& forall|j: int, k: int|
        0 <= j < extents.len() && k == j + 1 && k < extents.len() ==> (#[trigger] extents[k]).at == (
        #[trigger] extents[j]).at + extents[j].len && extents[j].file < extents[k].file && extents[k].start == 0
}

/// How many bytes the extents take up together.
pub open spec fn covered(extents: Seq<ExtentView>) -> int
    decreases extents.len(),
{
    if extents.len() == 0 {
        0
    } else {
        extents[0].len + covered(extents.skip(1))
    }
}

proof fn lemma_fills_one_more(
    lengths: Seq<int>,
    present: Seq<bool>,
    first: ExtentView,
    later: Seq<ExtentView>,
)
    requires
        0 <= first.file < lengths.len(),
        present[first.file],
        0 <= first.start,
        0 <= first.len,
        first.start + first.len <= lengths[first.file],
        fills(lengths, present, later, first.at + first.len),
        forall|k: int| 0 <= k < later.len() ==> first.file < (#[trigger] later[k]).file,
        later.len() > 0 ==> later[0].start == 0,
    ensures
        fills(lengths, present, seq![first] + later, first.at),
        covered(seq![first] + later) == first.len + covered(later),
{
    let all = seq![first] + later;
    assert(all.skip(1) =~= later);
    assert forall|k: int| 0 <= k < all.len() implies 0 <= (#[trigger] all[k]).file < lengths.len()
        && present[all[k].file] && 0 <= all[k].start && 0 <= all[k].len && all[k].start + all[k].len
        <= lengths[all[k].file] by {
        if k > 0 {
            assert(all[k] == later[k - 1]);
        }
    }
    assert forall|j: int, k: int| 0 <= j < all.len() && k == j + 1 && k < all.len() implies (#[trigger] all[k]).at == (
    #[trigger] all[j]).at + all[j].len && all[j].file < all[k].file && all[k].start == 0 by {
        assert(all[k] == later[k - 1]);
        if j > 0 {
            assert(all[j] == later[j - 1]);
        }
    }
}

proof fn lemma_read_fills(
    lengths: Seq<int>,
    present: Seq<bool>,
    i: int,
    skipped: int,
    done: int,
    len: int,
)
    requires
        0 <= i <= lengths.len() == present.len(),
        0 <= skipped,
        0 <= done <= len,
        forall|k: int| 0 <= k < lengths.len() ==> #[trigger] lengths[k] >= 0,
    ensures
        read_from(lengths, present, i, skipped, done, len) matches Some(plan) ==> {
            &&& fills(lengths, present, plan, done)
            &&& forall|k: int| 0 <= k < plan.len() ==> i <= (#[trigger] plan[k]).file
            &&& plan.len() > 0 && skipped == 0 ==> plan[0].start == 0
            &&& covered(plan) <= len - done
        },
    decreases lengths.len() - i,
{
    if i < lengths.len() && done < len {
        if skipped >= lengths[i] {
            lemma_read_fills(lengths, present, i + 1, skipped - lengths[i], done, len);
        } else if present[i] {
            let n = smaller(len - done, lengths[i] - skipped);
            lemma_read_fills(lengths, present, i + 1, 0, done + n, len);
            if let Some(later) = read_from(lengths, present, i + 1, 0, done + n, len) {
                let first = ExtentView { file: i, start: skipped, at: done, len: n };
                lemma_fills_one_more(lengths, present, first, later);
                let all = seq![first] + later;
                assert forall|k: int| 0 <= k < all.len() implies i <= (#[trigger] all[k]).file by {
                    if k > 0 {
                        assert(all[k] == later[k - 1]);
                    }
                }
            }
        }
    }
}

proof fn lemma_write_fills(
    lengths: Seq<int>,
    present: Seq<bool>,
    i: int,
    skipped: int,
    done: int,
    len: int,
)
    requires
        0 <= i <= lengths.len() == present.len(),
        0 <= skipped,
        0 <= done <= len,
        forall|k: int| 0 <= k < lengths.len() ==> #[trigger] lengths[k] >= 0,
    ensures
        ({
            let plan = write_from(lengths, present, i, skipped, done, len);
            &&& fills(lengths, present, plan, done)
            &&& forall|k: int| 0 <= k < plan.len() ==> i <= (#[trigger] plan[k]).file
            &&& plan.len() > 0 && skipped == 0 ==> plan[0].start == 0
            &&& covered(plan) <= len - done
        }),
    decreases lengths.len() - i,
{
    if i < lengths.len() {
        if skipped >= lengths[i] {
            lemma_write_fills(lengths, present, i + 1, skipped - lengths[i], done, len);
        } else if !present[i] {
            lemma_write_fills(lengths, present, i + 1, 0, done, len);
        } else {
            let n = smaller(len - done, lengths[i] - skipped);
            let first = ExtentView { file: i, start: skipped, at: done, len: n };
            let none = Seq::<ExtentView>::empty();
            if done + n >= len {
                lemma_fills_one_more(lengths, present, first, none);
                assert(seq![first] + none =~= seq![first]);
            } else {
                lemma_write_fills(lengths, present, i + 1, 0, done + n, len);
                let later = write_from(lengths, present, i + 1, 0, done + n, len);
                lemma_fills_one_more(lengths, present, first, later);
                let all = seq![first] + later;
                assert forall|k: int| 0 <= k < all.len() implies i <= (#[trigger] all[k]).file by {
                    if k > 0 {
                        assert(all[k] == later[k - 1]);
                    }
                }
            }
        }
    }
}

proof fn lemma_lengths_are_not_negative(mode: ModeView)
    ensures
        forall|k: int| 0 <= k < file_lengths(mode).len() ==> #[trigger] file_lengths(mode)[k] >= 0,
{
}

/// What is read or written of several files takes up the buffer from its beginning
/// on, one extent behind the other; every extent lies in a file that is there, within
/// its length; the files come in order, and all but the first are taken from their
/// beginning on.
pub proof fn extents_take_up_the_buffer_in_order(mode: ModeView, present: Seq<bool>, offset: int, len: int)
    requires
        mode is Multi,
        present.len() == file_lengths(mode).len(),
        0 <= offset,
        0 <= len,
    ensures
        read_plan(mode, present, offset, len) matches Some(plan) ==> fills(file_lengths(mode), present, plan, 0)
            && covered(plan) <= len,
        fills(file_lengths(mode), present, write_plan(mode, present, offset, len), 0),
        covered(write_plan(mode, present, offset, len)) <= len,
{
    lemma_lengths_are_not_negative(mode);
    lemma_read_fills(file_lengths(mode), present, 0, offset, 0, len);
    lemma_write_fills(file_lengths(mode), present, 0, offset, 0, len);
}

/// A single file is read where it is asked for, and written as far as it goes.
pub proof fn a_single_file_is_read_and_written_in_one(length: u64, present: Seq<bool>, offset: int, len: int)
    requires
        0 <= offset,
        0 <= len,
    ensures
        read_plan(ModeView::Single { length }, present, offset, len) == Some(
            seq![ExtentView { file: 0, start: offset, at: 0, len }],
        ),
        ({
            let plan = write_plan(ModeView::Single { length }, present, offset, len);
            &&& plan.len() == 1
            &&& plan[0].file == 0
            &&& plan[0].start == offset
            &&& plan[0].at == 0
            &&& offset + len <= length ==> plan[0].len == len
            &&& offset <= length < offset + len ==> plan[0].len == length - offset
            &&& length < offset ==> plan[0].len == 0
        }),
{
}

proof fn lemma_read_covers(
    lengths: Seq<int>,
    present: Seq<bool>,
    i: int,
    skipped: int,
    done: int,
    len: int,
)
    requires
        0 <= i <= lengths.len() == present.len(),
        0 <= skipped,
        0 <= done <= len,
        forall|k: int| 0 <= k < lengths.len() ==> #[trigger] lengths[k] >= 0,
    ensures
        read_from(lengths, present, i, skipped, done, len) matches Some(plan) ==> covered(plan) == room(
            sum(lengths) - sum(lengths.take(i)),
            skipped,
            len - done,
        ),
    decreases lengths.len() - i,
{
    if i < lengths.len() {
        assert(lengths.take(i + 1).drop_last() =~= lengths.take(i));
        lemma_sum_grows(lengths, i + 1);
        if done < len {
            if skipped >= lengths[i] {
                lemma_read_covers(lengths, present, i + 1, skipped - lengths[i], done, len);
            } else if present[i] {
                let n = smaller(len - done, lengths[i] - skipped);
                lemma_read_covers(lengths, present, i + 1, 0, done + n, len);
                if let Some(later) = read_from(lengths, present, i + 1, 0, done + n, len) {
                    let first = ExtentView { file: i, start: skipped, at: done, len: n };
                    assert((seq![first] + later).skip(1) =~= later);
                }
            }
        } else {
            lemma_sum_grows(lengths, i);
        }
    } else {
        assert(lengths.take(i) =~= lengths);
    }
}

/// As much is read of several files as is asked for, as far as there are bytes.
pub proof fn as_much_is_read_as_there_is(mode: ModeView, present: Seq<bool>, offset: int, len: int)
    requires
        mode is Multi,
        present.len() == file_lengths(mode).len(),
        0 <= offset,
        0 <= len,
    ensures
        read_plan(mode, present, offset, len) matches Some(plan) ==> {
            &&& offset + len <= mode_size(mode) ==> covered(plan) == len
            &&& offset <= mode_size(mode) < offset + len ==> covered(plan) == mode_size(mode) - offset
            &&& mode_size(mode) < offset ==> covered(plan) == 0
        },
{
    lemma_lengths_are_not_negative(mode);
    lemma_read_covers(file_lengths(mode), present, 0, offset, 0, len);
    assert(file_lengths(mode).take(0) =~= Seq::<int>::empty());
}

pub(crate) proof fn lemma_whole_length(disk: Seq<Seq<u8>>, present: Seq<bool>, mode: ModeView)
    requires
        is_complete(disk, present, file_lengths(mode)),
    ensures
        torrent_bytes(disk).len() == mode_size(mode),
{
    lemma_bytes_length(disk, file_lengths(mode), 0);
    assert(file_lengths(mode).take(0) =~= Seq::<int>::empty());
}

/// A write changes the bytes of its range and no others: a byte within it becomes the
/// byte of the data that belongs there, and any other stays.
pub proof fn a_write_changes_its_range_alone(
    mode: ModeView,
    present: Seq<bool>,
    disk: Seq<Seq<u8>>,
    offset: int,
    data: Seq<u8>,
    k: int,
)
    requires
        is_complete(disk, present, file_lengths(mode)),
        0 <= offset,
        0 <= k < mode_size(mode),
    ensures
        ({
            let after = written(disk, write_plan(mode, present, offset, data.len() as int), data);
            &&& torrent_bytes(disk).len() == mode_size(mode)
            &&& torrent_bytes(after).len() == mode_size(mode)
            &&& torrent_bytes(after)[k] == if offset <= k < offset + data.len() {
                data[k - offset]
            } else {
                torrent_bytes(disk)[k]
            }
        }),
{
    write_changes_the_range(mode, present, disk, offset, data);
    lemma_bytes_length(disk, file_lengths(mode), 0);
    assert(file_lengths(mode).take(0) =~= Seq::<int>::empty());
    lemma_bytes_length(
        written(disk, write_plan(mode, present, offset, data.len() as int), data),
        file_lengths(mode),
        0,
    );
}

proof fn lemma_write_starts(lengths: Seq<int>, present: Seq<bool>, k: int, offset: int, len: int)
    requires
        0 <= k <= lengths.len() == present.len(),
        sum(lengths.take(k)) <= offset,
        forall|i: int| 0 <= i < lengths.len() ==> #[trigger] lengths[i] >= 0,
    ensures
        write_from(lengths, present, 0, offset, 0, len) == write_from(
            lengths,
            present,
            k,
            offset - sum(lengths.take(k)),
            0,
            len,
        ),
    decreases k,
{
    if k > 0 {
        assert(lengths.take(k).drop_last() =~= lengths.take(k - 1));
        assert(lengths[k - 1] >= 0);
        lemma_write_starts(lengths, present, k - 1, offset, len);
    } else {
        assert(lengths.take(0) =~= Seq::<int>::empty());
    }
}

/// A write that starts in a file that is not there starts with the file behind it
/// instead: nothing of the data is left out for the file that is missing.
pub proof fn a_missing_file_takes_nothing_of_a_write(
    mode: ModeView,
    present: Seq<bool>,
    k: int,
    offset: int,
    len: int,
)
    requires
        mode is Multi,
        present.len() == file_lengths(mode).len(),
        0 <= k < present.len(),
        !present[k],
        sum(file_lengths(mode).take(k)) <= offset < sum(file_lengths(mode).take(k + 1)),
        0 < len,
    ensures
        write_plan(mode, present, offset, len) == write_plan(
            mode,
            present,
            sum(file_lengths(mode).take(k + 1)),
            len,
        ),
{
    let lengths = file_lengths(mode);
    lemma_lengths_are_not_negative(mode);
    assert(lengths.take(k + 1).drop_last() =~= lengths.take(k));
    lemma_write_starts(lengths, present, k, offset, len);
    lemma_write_starts(lengths, present, k + 1, sum(lengths.take(k + 1)), len);
}

/// Whether file `k` is written from its beginning to its end.
pub open spec fn is_filled(extents: Seq<ExtentView>, lengths: Seq<int>, k: int) -> bool {
    exists|j: int|
        0 <= j < extents.len() && (#[trigger] extents[j]).file == k && extents[j].start == 0 && extents[j].len
            == lengths[k]
}

proof fn lemma_filled_behind(first: ExtentView, later: Seq<ExtentView>, lengths: Seq<int>, k: int)
    requires
        is_filled(later, lengths, k),
    ensures
        is_filled(seq![first] + later, lengths, k),
{
    let j = choose|j: int|
        0 <= j < later.len() && (#[trigger] later[j]).file == k && later[j].start == 0 && later[j].len == lengths[k];
    assert((seq![first] + later)[j + 1] == later[j]);
}

proof fn lemma_write_fills_files(
    lengths: Seq<int>,
    present: Seq<bool>,
    i: int,
    skipped: int,
    done: int,
    len: int,
    k: int,
)
    requires
        0 <= i <= k < lengths.len() == present.len(),
        0 <= skipped <= sum(lengths.take(k)) - sum(lengths.take(i)),
        0 <= done <= len,
        forall|x: int| 0 <= x < lengths.len() ==> #[trigger] lengths[x] >= 0,
        present[k],
        lengths[k] > 0,
    ensures
        ({
            let plan = write_from(lengths, present, i, skipped, done, len);
            covered(plan) == len - done || is_filled(plan, lengths, k)
        }),
    decreases lengths.len() - i,
{
    assert(lengths.take(i + 1).drop_last() =~= lengths.take(i));
    let plan = write_from(lengths, present, i, skipped, done, len);
    if i < k {
        assert(lengths[i] >= 0);
        lemma_sum_grows(lengths.take(k), i + 1);
        assert(lengths.take(k).take(i + 1) =~= lengths.take(i + 1));
    }
    if skipped >= lengths[i] {
        lemma_write_fills_files(lengths, present, i + 1, skipped - lengths[i], done, len, k);
    } else if !present[i] {
        if done < len {
            lemma_write_fills_files(lengths, present, i + 1, 0, done, len, k);
        }
    } else {
        let n = smaller(len - done, lengths[i] - skipped);
        let first = ExtentView { file: i, start: skipped, at: done, len: n };
        let none = Seq::<ExtentView>::empty();
        if done + n >= len {
            assert(seq![first].skip(1) =~= none);
            assert(covered(seq![first]) == n + covered(none));
        } else {
            let later = write_from(lengths, present, i + 1, 0, done + n, len);
            assert(plan == seq![first] + later);
            assert((seq![first] + later).skip(1) =~= later);
            if i == k {
                assert(plan[0].file == k && plan[0].start == 0 && plan[0].len == lengths[k]);
            } else {
                lemma_write_fills_files(lengths, present, i + 1, 0, done + n, len, k);
                if is_filled(later, lengths, k) {
                    lemma_filled_behind(first, later, lengths, k);
                }
            }
        }
    }
}

/// Nothing of the data is held back while there is room: either all of it is written,
/// or every file that is there and starts behind the beginning of the write is written
/// from its beginning to its end.
pub proof fn nothing_is_held_back_while_there_is_room(
    mode: ModeView,
    present: Seq<bool>,
    offset: int,
    len: int,
    k: int,
)
    requires
        mode is Multi,
        present.len() == file_lengths(mode).len(),
        0 <= len,
        0 <= offset <= sum(file_lengths(mode).take(k)),
        0 <= k < present.len(),
        present[k],
        file_lengths(mode)[k] > 0,
    ensures
        ({
            let plan = write_plan(mode, present, offset, len);
            covered(plan) == len || is_filled(plan, file_lengths(mode), k)
        }),
{
    lemma_lengths_are_not_negative(mode);
    assert(file_lengths(mode).take(0) =~= Seq::<int>::empty());
    lemma_write_fills_files(file_lengths(mode), present, 0, offset, 0, len, k);
}

/// Whether file `k` is missing and holds a byte of a range that starts `skipped` bytes
/// behind the beginning of file `i`.
spec fn is_lacking(lengths: Seq<int>, present: Seq<bool>, i: int, skipped: int, len: int, k: int) -> bool {
    let start = sum(lengths.take(k)) - sum(lengths.take(i));
    i <= k < lengths.len() && !present[k] && start < skipped + len && skipped < start + lengths[k]
}

proof fn lemma_read_fails(
    lengths: Seq<int>,
    present: Seq<bool>,
    i: int,
    skipped: int,
    done: int,
    len: int,
    k: int,
)
    requires
        0 <= i <= lengths.len() == present.len(),
        0 <= skipped,
        0 <= done <= len,
        forall|x: int| 0 <= x < lengths.len() ==> #[trigger] lengths[x] >= 0,
    ensures
        is_lacking(lengths, present, i, skipped, len - done, k) && lengths[k] > 0 && done < len ==> read_from(
            lengths,
            present,
            i,
            skipped,
            done,
            len,
        ) is None,
        read_from(lengths, present, i, skipped, done, len) is None ==> exists|j: int|
            #[trigger] is_lacking(lengths, present, i, skipped, len - done, j) && lengths[j] > 0 && done < len,
    decreases lengths.len() - i,
{
    if i < lengths.len() && done < len {
        assert(lengths.take(i + 1).drop_last() =~= lengths.take(i));
        if i < k < lengths.len() {
            lemma_sum_grows(lengths.take(k), i + 1);
            assert(lengths.take(k).take(i + 1) =~= lengths.take(i + 1));
        }
        if skipped >= lengths[i] {
            lemma_read_fails(lengths, present, i + 1, skipped - lengths[i], done, len, k);
            if read_from(lengths, present, i + 1, skipped - lengths[i], done, len) is None {
                let j = choose|j: int|
                    #[trigger] is_lacking(lengths, present, i + 1, skipped - lengths[i], len - done, j) && lengths[j] > 0
                        && done < len;
                assert(is_lacking(lengths, present, i, skipped, len - done, j));
            }
        } else if !present[i] {
            assert(is_lacking(lengths, present, i, skipped, len - done, i));
        } else {
            let n = smaller(len - done, lengths[i] - skipped);
            lemma_read_fails(lengths, present, i + 1, 0, done + n, len, k);
            if read_from(lengths, present, i + 1, 0, done + n, len) is None {
                let j = choose|j: int|
                    #[trigger] is_lacking(lengths, present, i + 1, 0, len - (done + n), j) && lengths[j] > 0 && done + n
                        < len;
                lemma_sum_grows(lengths.take(j), i + 1);
                assert(lengths.take(j).take(i + 1) =~= lengths.take(i + 1));
                assert(is_lacking(lengths, present, i, skipped, len - done, j));
            }
        }
    }
}

/// A range of several files cannot be read exactly where a file that is not there holds
/// a byte of it; that it reaches past the end does not matter.
pub proof fn where_a_range_cannot_be_read(mode: ModeView, present: Seq<bool>, offset: int, len: int)
    requires
        mode is Multi,
        present.len() == file_lengths(mode).len(),
        0 <= offset,
        0 <= len,
    ensures
        read_plan(mode, present, offset, len) is None <==> exists|k: int|
            0 <= k < present.len() && !present[k] && #[trigger] is_needed(file_lengths(mode), k, offset, len),
{
    let lengths = file_lengths(mode);
    lemma_lengths_are_not_negative(mode);
    assert(lengths.take(0) =~= Seq::<int>::empty());
    lemma_read_fails(lengths, present, 0, offset, 0, len, 0);
    if read_plan(mode, present, offset, len) is None {
        let j = choose|j: int|
            #[trigger] is_lacking(lengths, present, 0, offset, len - 0, j) && lengths[j] > 0 && 0 < len;
        assert(is_needed(lengths, j, offset, len));
    }
    if exists|k: int| 0 <= k < present.len() && !present[k] && #[trigger] is_needed(lengths, k, offset, len) {
        let k = choose|k: int| 0 <= k < present.len() && !present[k] && #[trigger] is_needed(lengths, k, offset, len);
        lemma_read_fails(lengths, present, 0, offset, 0, len, k);
    }
}

} // verus!
