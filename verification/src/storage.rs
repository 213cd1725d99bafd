//! Where the bytes of a torrent lie in its files.
use vstd::prelude::*;
use vstd::string::*;
use crate::config::texts;
use crate::meta::{file_views, FileMode, FileView, InfoDict, InfoView, ModeView, TorrentFile};

verus! {

/// The lengths of the files of a torrent.
pub open spec fn file_lengths(mode: ModeView) -> Seq<int> {
    match mode {
        ModeView::Single { length } => seq![length as int],
        ModeView::Multi { files } => files.map_values(|f: FileView| f.length as int),
    }
}

/// The sum of some lengths.
pub open spec fn sum(lengths: Seq<int>) -> int
    decreases lengths.len(),
{
    if lengths.len() == 0 {
        0
    } else {
        sum(lengths.drop_last()) + lengths.last()
    }
}

/// How many bytes a torrent has.
pub open spec fn mode_size(mode: ModeView) -> int {
    sum(file_lengths(mode))
}

pub(crate) proof fn lemma_sum_grows(lengths: Seq<int>, n: int)
    requires
        0 <= n <= lengths.len(),
        forall|i: int| 0 <= i < lengths.len() ==> #[trigger] lengths[i] >= 0,
    ensures
        0 <= sum(lengths.take(n)) <= sum(lengths),
    decreases lengths.len(),
{
    if n < lengths.len() {
        let shorter = lengths.drop_last();
        assert(shorter.take(n) =~= lengths.take(n));
        assert forall|i: int| 0 <= i < shorter.len() implies #[trigger] shorter[i] >= 0 by {
            assert(lengths[i] >= 0);
        }
        lemma_sum_grows(shorter, n);
    } else {
        assert(lengths.take(n) =~= lengths);
        if lengths.len() > 0 {
            let shorter = lengths.drop_last();
            assert forall|i: int| 0 <= i < shorter.len() implies #[trigger] shorter[i] >= 0 by {
                assert(lengths[i] >= 0);
            }
            lemma_sum_grows(shorter, shorter.len() as int);
            assert(shorter.take(shorter.len() as int) =~= shorter);
            assert(lengths[lengths.len() - 1] >= 0);
        }
    }
}

impl FileMode {
    /// Whether the number of bytes is a 64-bit number.
    pub fn size_fits(&self) -> (r: bool)
        ensures
            r == (mode_size(self@) <= u64::MAX),
    {
        match self {
            FileMode::Single { length } => {
                proof {
                    lemma_single_size(*length);
                }
                true
            },
            FileMode::Multi { files } => {
                let ghost lengths = file_lengths(self@);
                let mut total: u64 = 0;
                let mut i: usize = 0;
                while i < files.len()
                    invariant
                        i <= files@.len(),
                        self@ == (ModeView::Multi { files: file_views(files@) }),
                        lengths == file_lengths(self@),
                        total == sum(lengths.take(i as int)),
                    decreases files@.len() - i,
                {
                    proof {
                        lemma_one_more_file(files@, i as int);
                        lemma_sum_grows(lengths, i + 1);
                    }
                    match total.checked_add(files[i].length) {
                        Some(more) => {
                            total = more;
                        },
                        None => {
                            return false;
                        },
                    }
                    i += 1;
                }
                assert(lengths.take(i as int) =~= lengths);
                true
            },
        }
    }

    /// How many bytes the torrent has.
    pub fn total_size(&self) -> (r: u64)
        requires
            mode_size(self@) <= u64::MAX,
        ensures
            r == mode_size(self@),
    {
        match self {
            FileMode::Single { length } => {
                proof {
                    lemma_single_size(*length);
                }
                *length
            },
            FileMode::Multi { files } => {
                let ghost lengths = file_lengths(self@);
                let mut total: u64 = 0;
                let mut i: usize = 0;
                while i < files.len()
                    invariant
                        i <= files@.len(),
                        self@ == (ModeView::Multi { files: file_views(files@) }),
                        lengths == file_lengths(self@),
                        sum(lengths) <= u64::MAX,
                        total == sum(lengths.take(i as int)),
                    decreases files@.len() - i,
                {
                    proof {
                        lemma_one_more_file(files@, i as int);
                        lemma_sum_grows(lengths, i + 1);
                    }
                    total = total + files[i].length;
                    i += 1;
                }
                assert(lengths.take(i as int) =~= lengths);
                total
            },
        }
    }
}

proof fn lemma_single_size(length: u64)
    ensures
        mode_size(ModeView::Single { length }) == length,
{
    let lengths = seq![length as int];
    assert(lengths.drop_last() =~= Seq::<int>::empty());
    assert(sum(lengths) == sum(lengths.drop_last()) + lengths.last());
}

proof fn lemma_one_more_file(files: Seq<TorrentFile>, i: int)
    requires
        0 <= i < files.len(),
    ensures
        ({
            let lengths = file_lengths(ModeView::Multi { files: file_views(files) });
            &&& lengths.len() == files.len()
            &&& sum(lengths.take(i + 1)) == sum(lengths.take(i)) + files[i].length
            &&& forall|k: int| 0 <= k < lengths.len() ==> #[trigger] lengths[k] >= 0
        }),
{
    let lengths = file_lengths(ModeView::Multi { files: file_views(files) });
    assert(lengths.take(i + 1).drop_last() =~= lengths.take(i));
}

/// Some bytes of a file, and where they stand in a buffer.
#[derive(Debug, Clone, Copy, PartialEq, Eq)]
pub struct Extent {
    /// Which file of the torrent.
    pub file: usize,
    /// The first byte in the file.
    pub start: u64,
    /// The first byte in the buffer.
    pub at: usize,
    /// How many bytes.
    pub len: usize,
}

/// What an `Extent` says.
pub struct ExtentView {
    pub file: int,
    pub start: int,
    pub at: int,
    pub len: int,
}

impl Extent {
    pub open spec fn view(&self) -> ExtentView {
        ExtentView { file: self.file as int, start: self.start as int, at: self.at as int, len: self.len as int }
    }
}

/// What some extents say.
pub open spec fn extent_views(extents: Seq<Extent>) -> Seq<ExtentView> {
    extents.map_values(|e: Extent| e@)
}

/// The smaller of two numbers.
pub open spec fn smaller(a: int, b: int) -> int {
    if a <= b {
        a
    } else {
        b
    }
}

/// What is read from file `i` on for a range of which `skipped` bytes are still
/// to be passed over and `done` bytes of `len` have been read. Nothing is read
/// where a file that holds a part of the range is not there.
pub open spec fn read_from(
    lengths: Seq<int>,
    present: Seq<bool>,
    i: int,
    skipped: int,
    done: int,
    len: int,
) -> Option<Seq<ExtentView>>
    decreases lengths.len() - i,
{
    if !(0 <= i < lengths.len()) || done >= len {
        Some(seq![])
    } else if skipped >= lengths[i] {
        read_from(lengths, present, i + 1, skipped - lengths[i], done, len)
    } else if !present[i] {
        None
    } else {
        let n = smaller(len - done, lengths[i] - skipped);
        match read_from(lengths, present, i + 1, 0, done + n, len) {
            Some(later) => Some(seq![ExtentView { file: i, start: skipped, at: done, len: n }] + later),
            None => None,
        }
    }
}

/// What is written from file `i` on. What would belong into a file that is not
/// there goes into the next one.
pub open spec fn write_from(
    lengths: Seq<int>,
    present: Seq<bool>,
    i: int,
    skipped: int,
    done: int,
    len: int,
) -> Seq<ExtentView>
    decreases lengths.len() - i,
{
    if !(0 <= i < lengths.len()) {
        seq![]
    } else if skipped >= lengths[i] {
        write_from(lengths, present, i + 1, skipped - lengths[i], done, len)
    } else if !present[i] {
        if done >= len {
            seq![]
        } else {
            write_from(lengths, present, i + 1, 0, done, len)
        }
    } else {
        let n = smaller(len - done, lengths[i] - skipped);
        let here = seq![ExtentView { file: i, start: skipped, at: done, len: n }];
        if done + n >= len {
            here
        } else {
            here + write_from(lengths, present, i + 1, 0, done + n, len)
        }
    }
}

/// What is read for `len` bytes from `offset` on, if they can be read.
pub open spec fn read_plan(mode: ModeView, present: Seq<bool>, offset: int, len: int) -> Option<Seq<ExtentView>> {
    match mode {
        ModeView::Single { .. } => Some(seq![ExtentView { file: 0, start: offset, at: 0, len }]),
        ModeView::Multi { .. } => read_from(file_lengths(mode), present, 0, offset, 0, len),
    }
}

/// What is written for `len` bytes from `offset` on: a single file does not
/// grow.
pub open spec fn write_plan(mode: ModeView, present: Seq<bool>, offset: int, len: int) -> Seq<ExtentView> {
    match mode {
        ModeView::Single { length } => seq![
            ExtentView {
                file: 0,
                start: offset,
                at: 0,
                len: smaller(len, if offset <= length { length - offset } else { 0 }),
            },
        ],
        ModeView::Multi { .. } => write_from(file_lengths(mode), present, 0, offset, 0, len),
    }
}

/// A plan behind some extents, if there is one.
spec fn behind(before: Seq<ExtentView>, later: Option<Seq<ExtentView>>) -> Option<Seq<ExtentView>> {
    match later {
        Some(extents) => Some(before + extents),
        None => None,
    }
}

proof fn lemma_one_more_extent(extents: Seq<Extent>, e: Extent)
    ensures
        extent_views(extents.push(e)) == extent_views(extents) + seq![e@],
{
    assert(extent_views(extents.push(e)) =~= extent_views(extents) + seq![e@]);
}

impl FileMode {
    /// Where to read `len` bytes from `offset` on, in the order of the files.
    /// `present` tells which files are there: where one of several is needed that
    /// is not, the bytes cannot be read.
    pub fn read_piece_from_disk(&self, present: &Vec<bool>, offset: u64, len: usize) -> (r: Option<Vec<Extent>>)
        requires
            self@ is Multi ==> present@.len() == file_lengths(self@).len(),
        ensures
            match read_plan(self@, present@, offset as int, len as int) {
                Some(plan) => r matches Some(extents) && extent_views(extents@) == plan,
                None => r is None,
            },
    {
        let mut extents: Vec<Extent> = Vec::new();
        match self {
            FileMode::Single { .. } => {
                let whole = Extent { file: 0, start: offset, at: 0, len };
                proof {
                    lemma_one_more_extent(extents@, whole);
                }
                extents.push(whole);
                assert(extent_views(extents@) =~= seq![whole@]);
            },
            FileMode::Multi { files } => {
                let ghost lengths = file_lengths(self@);
                let ghost meant = read_from(lengths, present@, 0, offset as int, 0, len as int);
                let mut skipped: u64 = offset;
                let mut done: usize = 0;
                let mut i: usize = 0;
                assert(extent_views(extents@) =~= Seq::<ExtentView>::empty());
                assert(meant is Some ==> extent_views(extents@) + meant->0 =~= meant->0);
                while i < files.len() && done < len
                    invariant
                        i <= files@.len() == present@.len(),
                        done <= len,
                        self@ == (ModeView::Multi { files: file_views(files@) }),
                        lengths == file_lengths(self@),
                        meant == read_plan(self@, present@, offset as int, len as int),
                        meant == behind(
                            extent_views(extents@),
                            read_from(lengths, present@, i as int, skipped as int, done as int, len as int),
                        ),
                    decreases files@.len() - i,
                {
                    let length: u64 = files[i].length;
                    assert(lengths[i as int] == length);
                    if skipped >= length {
                        skipped = skipped - length;
                    } else if present[i] {
                        let available: u64 = length - skipped;
                        let n: usize = if (len - done) as u64 <= available {
                            len - done
                        } else {
                            available as usize
                        };
                        let e = Extent { file: i, start: skipped, at: done, len: n };
                        let ghost before = extent_views(extents@);
                        proof {
                            lemma_one_more_extent(extents@, e);
                            if let Some(later) = read_from(lengths, present@, i + 1, 0, done + n, len as int) {
                                assert((before + seq![e@]) + later =~= before + (seq![e@] + later));
                            }
                        }
                        extents.push(e);
                        done = done + n;
                        skipped = 0;
                    } else {
                        return None;
                    }
                    i += 1;
                }
                assert(extent_views(extents@) + Seq::<ExtentView>::empty() =~= extent_views(extents@));
            },
        }
        Some(extents)
    }

    /// Where to write `len` bytes from `offset` on, in the order of the files.
    /// `present` tells which files are there.
    pub fn write_block(&self, present: &Vec<bool>, offset: u64, len: usize) -> (r: Vec<Extent>)
        requires
            self@ is Multi ==> present@.len() == file_lengths(self@).len(),
        ensures
            extent_views(r@) == write_plan(self@, present@, offset as int, len as int),
    {
        let mut extents: Vec<Extent> = Vec::new();
        match self {
            FileMode::Single { length } => {
                let remaining: u64 = if offset <= *length {
                    *length - offset
                } else {
                    0
                };
                let n: usize = if len as u64 <= remaining {
                    len
                } else {
                    remaining as usize
                };
                let whole = Extent { file: 0, start: offset, at: 0, len: n };
                proof {
                    lemma_one_more_extent(extents@, whole);
                }
                extents.push(whole);
                assert(extent_views(extents@) =~= seq![whole@]);
            },
            FileMode::Multi { files } => {
                let ghost lengths = file_lengths(self@);
                let mut skipped: u64 = offset;
                let mut done: usize = 0;
                let mut i: usize = 0;
                assert(extent_views(extents@) =~= Seq::<ExtentView>::empty());
                assert(extent_views(extents@) + write_from(lengths, present@, 0, offset as int, 0, len as int)
                    =~= write_from(lengths, present@, 0, offset as int, 0, len as int));
                while i < files.len()
                    invariant
                        i <= files@.len() == present@.len(),
                        done <= len,
                        self@ == (ModeView::Multi { files: file_views(files@) }),
                        lengths == file_lengths(self@),
                        extent_views(extents@) + write_from(
                            lengths,
                            present@,
                            i as int,
                            skipped as int,
                            done as int,
                            len as int,
                        ) == write_from(lengths, present@, 0, offset as int, 0, len as int),
                    decreases files@.len() - i,
                {
                    let length: u64 = files[i].length;
                    assert(lengths[i as int] == length);
                    if skipped >= length {
                        skipped = skipped - length;
                    } else {
                        let ghost before = extent_views(extents@);
                        if present[i] {
                            let available: u64 = length - skipped;
                            let n: usize = if (len - done) as u64 <= available {
                                len - done
                            } else {
                                available as usize
                            };
                            let e = Extent { file: i, start: skipped, at: done, len: n };
                            proof {
                                lemma_one_more_extent(extents@, e);
                            }
                            extents.push(e);
                            done = done + n;
                            assert(extent_views(extents@) + write_from(
                                lengths,
                                present@,
                                i + 1,
                                0,
                                done as int,
                                len as int,
                            ) =~= before + (seq![e@] + write_from(
                                lengths,
                                present@,
                                i + 1,
                                0,
                                done as int,
                                len as int,
                            )));
                        }
                        skipped = 0;
                        if done >= len {
                            assert(before + Seq::<ExtentView>::empty() =~= before);
                            return extents;
                        }
                    }
                    i += 1;
                }
                assert(extent_views(extents@) + Seq::<ExtentView>::empty() =~= extent_views(extents@));
            },
        }
        extents
    }
}

/// A file that is to be on disk, and how long it is to be.
#[derive(Debug, Clone, PartialEq, Eq)]
pub struct FileToMake {
    /// The parts of its path below the directory for downloads.
    pub path: Vec<String>,
    pub length: u64,
}

impl FileToMake {
    pub open spec fn view(&self) -> FileView {
        FileView { length: self.length, path: texts(self.path@) }
    }
}

/// What some files to make say.
pub open spec fn make_views(files: Seq<FileToMake>) -> Seq<FileView> {
    files.map_values(|f: FileToMake| f@)
}

/// The path of file `i` below the directory for downloads: the name of the
/// torrent, and behind it the path of the file where there are several.
pub open spec fn path_on_disk(info: InfoView, i: int) -> Seq<Seq<char>> {
    match info.mode {
        ModeView::Single { .. } => seq![info.name],
        ModeView::Multi { files } => seq![info.name] + files[i].path,
    }
}

/// The files that are to be on disk among the first `n`: every file that has a
/// path.
pub open spec fn files_to_make(info: InfoView, n: int) -> Seq<FileView>
    decreases n,
{
    if n <= 0 {
        seq![]
    } else {
        let fewer = files_to_make(info, n - 1);
        match info.mode {
            ModeView::Single { length } => fewer.push(FileView { length, path: path_on_disk(info, n - 1) }),
            ModeView::Multi { files } => if files[n - 1].path.len() == 0 {
                fewer
            } else {
                fewer.push(FileView { length: files[n - 1].length, path: path_on_disk(info, n - 1) })
            },
        }
    }
}

impl InfoDict {
    /// The parts of the path of file `i` below the directory for downloads.
    pub fn file_path(&self, i: usize) -> (r: Vec<String>)
        requires
            i < file_lengths(self@.mode).len(),
        ensures
            texts(r@) == path_on_disk(self@, i as int),
    {
        let mut path: Vec<String> = Vec::new();
        path.push(self.name.clone());
        match &self.mode {
            FileMode::Single { .. } => {
                assert(texts(path@) =~= path_on_disk(self@, i as int));
            },
            FileMode::Multi { files } => {
                let parts = &files[i].path;
                let mut k: usize = 0;
                while k < parts.len()
                    invariant
                        k <= parts@.len(),
                        texts(path@) == seq![self.name@] + texts(parts@).take(k as int),
                    decreases parts@.len() - k,
                {
                    let ghost before = path@;
                    path.push(parts[k].clone());
                    assert(texts(path@) =~= texts(before).push(parts@[k as int]@));
                    assert(texts(parts@).take(k + 1) =~= texts(parts@).take(k as int).push(parts@[k as int]@));
                    k += 1;
                    assert(texts(path@) =~= seq![self.name@] + texts(parts@).take(k as int));
                }
                assert(texts(parts@).take(k as int) =~= texts(parts@));
                assert(self@.mode->Multi_files[i as int].path == texts(parts@));
            },
        }
        path
    }

    /// The files that are to be on disk before a download starts, each of its
    /// full length.
    pub fn initialize_files(&self) -> (r: Vec<FileToMake>)
        ensures
            make_views(r@) == files_to_make(self@, file_lengths(self@.mode).len() as int),
    {
        let mut made: Vec<FileToMake> = Vec::new();
        assert(make_views(made@) =~= Seq::<FileView>::empty());
        match &self.mode {
            FileMode::Single { length } => {
                let f = FileToMake { path: self.file_path(0), length: *length };
                made.push(f);
                reveal_with_fuel(files_to_make, 2);
                assert(make_views(made@) =~= files_to_make(self@, 1));
            },
            FileMode::Multi { files } => {
                let mut i: usize = 0;
                while i < files.len()
                    invariant
                        i <= files@.len(),
                        self@.mode == (ModeView::Multi { files: file_views(files@) }),
                        make_views(made@) == files_to_make(self@, i as int),
                    decreases files@.len() - i,
                {
                    let ghost before = make_views(made@);
                    assert(self@.mode->Multi_files[i as int] == files@[i as int]@);
                    if files[i].path.len() != 0 {
                        let f = FileToMake { path: self.file_path(i), length: files[i].length };
                        made.push(f);
                        assert(make_views(made@) =~= before.push(f@));
                    }
                    i += 1;
                }
            },
        }
        made
    }
}

} // verus!
