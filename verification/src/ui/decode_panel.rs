//! The decoding panel's state and its reactions to the user. Reading the
//! input files, the dialogs, writing the restored files and opening a
//! folder are asked for through the action that each reaction returns; the
//! caller does the work and hands the outcome back (`files_loaded`,
//! `files_picked`, `folder_picked`, `writes_done`).
use vstd::prelude::*;

use crate::decode::fragment::{extract_lines, lines_of, str_views};
use crate::decode::scan::{
    consistent, entry_for, has_frag, lemma_closed_entry, lemma_entry_of_lines, mentions,
};
use crate::decode::{
    opt_string_view, fragment_of, HashEntry, find_entry, parse_lines, parse_lines_spec, reconstruct, reconstruct_spec, describes, EntryMap, EntryModel,
};
use crate::text::{
    contains_str, has_infix,
    append_str, decimal, decimal_chars, str_to_chars, string_from_chars,
    utf8_to_string,
};
use crate::ui::encode_panel::direct_text_name;
use vstd::utf8::{decode_utf8, valid_utf8};

verus! {

/// Where restored files go.
#[derive(Debug, Clone, PartialEq, Eq)]
pub enum OutputDir {
    SameAsInput,
    Downloads,
    CurrentDir,
    Custom(String),
}

/// The label of each choice.
pub open spec fn output_dir_label(d: OutputDir) -> Seq<char> {
    match d {
        OutputDir::SameAsInput => "入力ファイルと同じディレクトリ"@,
        OutputDir::Downloads => "Downloadsディレクトリ"@,
        OutputDir::CurrentDir => "カレントディレクトリ"@,
        OutputDir::Custom(_) => "指定ディレクトリ"@,
    }
}

impl OutputDir {
    /// The label shown for the choice.
    pub fn label(&self) -> (r: &'static str)
        ensures
            r@ == output_dir_label(*self),
    {
        match self {
            OutputDir::SameAsInput => "入力ファイルと同じディレクトリ",
            OutputDir::Downloads => "Downloadsディレクトリ",
            OutputDir::CurrentDir => "カレントディレクトリ",
            OutputDir::Custom(_) => "指定ディレクトリ",
        }
    }
}

// ---------------------------------------------------------------------------
// The selected hashes
// ---------------------------------------------------------------------------

/// `s` without the occurrences of `h`.
pub open spec fn without(s: Seq<Seq<char>>, h: Seq<char>) -> Seq<Seq<char>>
    decreases s.len(),
{
    if s.len() == 0 {
        s
    } else if s.last() == h {
        without(s.drop_last(), h)
    } else {
        without(s.drop_last(), h).push(s.last())
    }
}

/// Removing `h` keeps the other hashes and no copy of `h`.
pub proof fn lemma_without(s: Seq<Seq<char>>, h: Seq<char>)
    ensures
        forall|x: Seq<char>| #[trigger] without(s, h).contains(x) <==> (s.contains(x) && x != h),
        s.no_duplicates() ==> without(s, h).no_duplicates(),
    decreases s.len(),
{
    if s.len() > 0 {
        lemma_without(s.drop_last(), h);
        let p = s.drop_last();
        assert forall|x: Seq<char>| s.contains(x) <==> (p.contains(x) || x == s.last()) by {
            if s.contains(x) {
                let k = choose|k: int| 0 <= k < s.len() && s[k] == x;
                if k < s.len() - 1 {
                    assert(p[k] == x);
                }
            }
            if p.contains(x) {
                let k = choose|k: int| 0 <= k < p.len() && p[k] == x;
                assert(s[k] == x);
            }
            if x == s.last() {
                assert(s[s.len() - 1] == x);
            }
        }
        let w = without(p, h);
        assert forall|x: Seq<char>| w.push(s.last()).contains(x) <==> (w.contains(x) || x == s.last()) by {
            let q = w.push(s.last());
            if q.contains(x) {
                let k = choose|k: int| 0 <= k < q.len() && q[k] == x;
                if k < w.len() {
                    assert(w[k] == x);
                }
            }
            if w.contains(x) {
                let k = choose|k: int| 0 <= k < w.len() && w[k] == x;
                assert(q[k] == x);
            }
            if x == s.last() {
                assert(q[q.len() - 1] == x);
            }
        }
        assert forall|x: Seq<char>| #[trigger] without(s, h).contains(x) <==> (s.contains(x) && x != h) by {
            assert(s.contains(x) <==> (p.contains(x) || x == s.last()));
            assert(w.contains(x) <==> (p.contains(x) && x != h));
            if s.last() == h {
                assert(without(s, h) == w);
            } else {
                assert(without(s, h) == w.push(s.last()));
                assert(w.push(s.last()).contains(x) <==> (w.contains(x) || x == s.last()));
            }
        }
        if s.no_duplicates() {
            assert(p.no_duplicates());
            if s.last() != h {
                assert(!p.contains(s.last())) by {
                    if p.contains(s.last()) {
                        let k = choose|k: int| 0 <= k < p.len() && p[k] == s.last();
                        assert(s[k] == s[s.len() - 1]);
                    }
                }
                let q = w.push(s.last());
                assert forall|i: int, j: int| 0 <= i < q.len() && 0 <= j < q.len() && i != j implies q[i]
                    != q[j] by {
                    if i < w.len() && j < w.len() {
                    } else if i < w.len() {
                        assert(w.contains(q[i]));
                    } else {
                        assert(w.contains(q[j]));
                    }
                }
            }
        }
    } else {
        assert forall|x: Seq<char>| #[trigger] without(s, h).contains(x) <==> (s.contains(x) && x != h) by {
            if s.contains(x) {
                let k = choose|k: int| 0 <= k < s.len() && s[k] == x;
            }
        }
    }
}

/// Choosing a hash and then dropping it leaves the choice as if the hash
/// had only been dropped: it is no longer chosen, and the others stay.
pub proof fn lemma_toggle_on_off(s: Seq<Seq<char>>, h: Seq<char>)
    ensures
        without(if s.contains(h) { s } else { s.push(h) }, h) == without(s, h),
        !without(s, h).contains(h),
{
    lemma_without(s, h);
    if !s.contains(h) {
        assert(s.push(h).drop_last() =~= s);
    }
}

/// The hashes chosen for decoding, in the order they were chosen; a hash
/// occurs at most once.
pub struct HashSelection {
    hashes: Vec<String>,
}

impl View for HashSelection {
    type V = Seq<Seq<char>>;

    closed spec fn view(&self) -> Seq<Seq<char>> {
        self.hashes@.map_values(|s: String| s@)
    }
}

impl HashSelection {
    /// No hash chosen.
    pub fn new() -> (r: Self)
        ensures
            r@ == Seq::<Seq<char>>::empty(),
    {
        let r = HashSelection { hashes: Vec::new() };
        assert(r@ =~= Seq::<Seq<char>>::empty());
        r
    }

    /// The number of hashes chosen.
    pub fn len(&self) -> (r: usize)
        ensures
            r == self@.len(),
    {
        self.hashes.len()
    }

    /// Whether no hash is chosen.
    pub fn is_empty(&self) -> (r: bool)
        ensures
            r == (self@.len() == 0),
    {
        self.hashes.len() == 0
    }

    /// The `i`-th hash chosen.
    pub fn get(&self, i: usize) -> (r: &String)
        requires
            i < self@.len(),
        ensures
            r@ == self@[i as int],
    {
        &self.hashes[i]
    }

    /// Whether `hash` is chosen.
    pub fn contains(&self, hash: &str) -> (r: bool)
        ensures
            r == self@.contains(hash@),
    {
        let h = hash.to_owned();
        let mut i: usize = 0;
        while i < self.hashes.len()
            invariant
                i <= self.hashes@.len(),
                h@ == hash@,
                forall|j: int| 0 <= j < i ==> #[trigger] self@[j] != hash@,
            decreases self.hashes@.len() - i,
        {
            if self.hashes[i] == h {
                assert(self@[i as int] == hash@);
                return true;
            }
            i += 1;
        }
        false
    }

    /// Chooses `hash`; choosing it again changes nothing.
    pub fn insert(&mut self, hash: String)
        ensures
            final(self)@ == if old(self)@.contains(hash@) {
                old(self)@
            } else {
                old(self)@.push(hash@)
            },
            old(self)@.no_duplicates() ==> final(self)@.no_duplicates(),
    {
        if !self.contains(hash.as_str()) {
            let ghost before = self@;
            self.hashes.push(hash);
            proof {
                assert(self@ =~= before.push(hash@));
                if before.no_duplicates() {
                    let q = self@;
                    assert forall|i: int, j: int| 0 <= i < q.len() && 0 <= j < q.len() && i != j implies q[i]
                        != q[j] by {
                        if i < before.len() && j < before.len() {
                        } else if i < before.len() {
                            assert(before.contains(q[i]));
                        } else {
                            assert(before.contains(q[j]));
                        }
                    }
                }
            }
        }
    }

    /// Drops `hash` from the choice.
    pub fn remove(&mut self, hash: &str)
        ensures
            final(self)@ == without(old(self)@, hash@),
            old(self)@.no_duplicates() ==> final(self)@.no_duplicates(),
    {
        let ghost before = self@;
        proof {
            lemma_without(before, hash@);
        }
        let h = hash.to_owned();
        let mut kept: Vec<String> = Vec::new();
        let mut i: usize = 0;
        while i < self.hashes.len()
            invariant
                i <= self.hashes@.len(),
                h@ == hash@,
                before == self@,
                kept@.map_values(|s: String| s@) == without(before.take(i as int), hash@),
            decreases self.hashes@.len() - i,
        {
            proof {
                assert(before.take(i + 1).drop_last() =~= before.take(i as int));
            }
            if self.hashes[i] == h {
            } else {
                let ghost k0 = kept@;
                kept.push(self.hashes[i].clone());
                assert(kept@.map_values(|s: String| s@) =~= k0.map_values(|s: String| s@).push(before[i as int]));
            }
            i += 1;
        }
        assert(before.take(before.len() as int) =~= before);
        self.hashes = kept;
    }
}

// ---------------------------------------------------------------------------
// Reading the input files
// ---------------------------------------------------------------------------

/// What reading each file gave (its text, or the error's text), by view.
pub open spec fn read_views(v: Seq<Result<String, String>>) -> Seq<Result<Seq<char>, Seq<char>>> {
    v.map_values(
        |r: Result<String, String>|
            match r {
                Ok(c) => Ok(c@),
                Err(e) => Err(e@),
            },
    )
}

/// The lines of the files that could be read, file after file.
pub open spec fn loaded_lines(contents: Seq<Result<Seq<char>, Seq<char>>>) -> Seq<Seq<char>>
    decreases contents.len(),
{
    if contents.len() == 0 {
        seq![]
    } else {
        loaded_lines(contents.drop_last()) + match contents.last() {
            Ok(c) => lines_of(c),
            Err(_) => seq![],
        }
    }
}

/// Reading files in turn: one file gives its lines when it could be read
/// and none when it could not, and several files give the lines of each,
/// in the order of the files, so reading another file never drops the
/// lines already read.
pub proof fn lemma_loaded_lines_concat(
    a: Seq<Result<Seq<char>, Seq<char>>>,
    b: Seq<Result<Seq<char>, Seq<char>>>,
)
    ensures
        loaded_lines(a + b) == loaded_lines(a) + loaded_lines(b),
        forall|c: Seq<char>| #[trigger] loaded_lines(seq![Ok(c)]) == lines_of(c),
        forall|e: Seq<char>| #[trigger] loaded_lines(seq![Err(e)]) == Seq::<Seq<char>>::empty(),
    decreases b.len(),
{
    assert forall|c: Seq<char>| #[trigger] loaded_lines(seq![Ok(c)]) == lines_of(c) by {
        let one: Seq<Result<Seq<char>, Seq<char>>> = seq![Ok(c)];
        assert(one.drop_last() =~= Seq::<Result<Seq<char>, Seq<char>>>::empty());
        assert(loaded_lines(one.drop_last()) == Seq::<Seq<char>>::empty());
        assert(one.last() == Ok::<Seq<char>, Seq<char>>(c));
        assert(loaded_lines(one) == loaded_lines(one.drop_last()) + lines_of(c));
        assert(Seq::<Seq<char>>::empty() + lines_of(c) =~= lines_of(c));
    }
    assert forall|e: Seq<char>| #[trigger] loaded_lines(seq![Err(e)]) == Seq::<Seq<char>>::empty() by {
        let one: Seq<Result<Seq<char>, Seq<char>>> = seq![Err(e)];
        assert(one.drop_last() =~= Seq::<Result<Seq<char>, Seq<char>>>::empty());
        assert(loaded_lines(one.drop_last()) == Seq::<Seq<char>>::empty());
        assert(one.last() == Err::<Seq<char>, Seq<char>>(e));
        assert(Seq::<Seq<char>>::empty() + Seq::<Seq<char>>::empty() =~= Seq::<Seq<char>>::empty());
    }
    if b.len() == 0 {
        assert(a + b =~= a);
        assert(loaded_lines(a) + loaded_lines(b) =~= loaded_lines(a));
    } else {
        lemma_loaded_lines_concat(a, b.drop_last());
        assert((a + b).drop_last() =~= a + b.drop_last());
        assert((a + b).last() == b.last());
        let tail: Seq<Seq<char>> = match b.last() {
            Ok(c) => lines_of(c),
            Err(_) => seq![],
        };
        assert(loaded_lines(a) + loaded_lines(b.drop_last()) + tail =~= loaded_lines(a) + (
        loaded_lines(b.drop_last()) + tail));
    }
}

/// No fragment read is lost: every fragment line of every file that could
/// be read reaches the entry of its hash, with its chunk, as long as no
/// two lines read give one fragment index of one hash different chunks.
pub proof fn lemma_loaded_fragment_kept(
    contents: Seq<Result<Seq<char>, Seq<char>>>,
    i: int,
    c: Seq<char>,
    line: Seq<char>,
    h: Seq<char>,
    k: usize,
    chunk: Seq<char>,
)
    requires
        0 <= i < contents.len(),
        contents[i] == Ok::<Seq<char>, Seq<char>>(c),
        lines_of(c).contains(line),
        fragment_of(line) == Some((h, k, chunk)),
        consistent(loaded_lines(contents)),
    ensures
        entry_for(parse_lines_spec(loaded_lines(contents)), h) matches Some(e) && e.fragments.contains_key(k)
            && e.fragments[k] == chunk,
{
    let lines = loaded_lines(contents);
    let pre = contents.take(i);
    let one: Seq<Result<Seq<char>, Seq<char>>> = seq![Ok(c)];
    let post = contents.skip(i + 1);
    assert(contents =~= pre + one + post);
    lemma_loaded_lines_concat(pre, one);
    lemma_loaded_lines_concat(pre + one, post);
    assert(lines == loaded_lines(pre) + lines_of(c) + loaded_lines(post));
    let j = choose|j: int| 0 <= j < lines_of(c).len() && lines_of(c)[j] == line;
    let at = loaded_lines(pre).len() + j;
    assert(lines[at] == line);
    assert(has_frag(lines, h, k, chunk));
    assert(mentions(lines, h));
    lemma_entry_of_lines(lines, h);
    lemma_closed_entry(lines, h);
    let c2 = choose|c2: Seq<char>| #[trigger] has_frag(lines, h, k, c2);
    assert(has_frag(lines, h, k, c2));
    assert(c2 == chunk);
}

/// The message for a file that could not be read.
pub open spec fn msg_read_failed(path: Seq<char>, e: Seq<char>) -> Seq<char> {
    "ファイル読み込みエラー ("@ + path + "): "@ + e
}

/// The message for the last file that could not be read, if any.
pub open spec fn load_error(paths: Seq<Seq<char>>, contents: Seq<Result<Seq<char>, Seq<char>>>) -> Option<
    Seq<char>,
>
    decreases contents.len(),
{
    if contents.len() == 0 {
        None
    } else {
        match contents.last() {
            Err(e) => Some(msg_read_failed(paths[contents.len() - 1], e)),
            Ok(_) => load_error(paths, contents.drop_last()),
        }
    }
}

/// Reading reports the file that failed last: no error exactly when every
/// file could be read, and otherwise the message for the last file that
/// could not be, with its own path and error.
pub proof fn lemma_load_error_last(paths: Seq<Seq<char>>, contents: Seq<Result<Seq<char>, Seq<char>>>)
    ensures
        load_error(paths, contents) is None <==> forall|j: int|
            0 <= j < contents.len() ==> #[trigger] contents[j] is Ok,
        forall|i: int|
            0 <= i < contents.len() && (forall|j: int| i < j < contents.len() ==> #[trigger] contents[j] is Ok)
                ==> (#[trigger] contents[i] matches Err(e) ==> load_error(paths, contents) == Some(
                msg_read_failed(paths[i], e),
            )),
    decreases contents.len(),
{
    if contents.len() > 0 {
        let p = contents.drop_last();
        let n = contents.len() - 1;
        lemma_load_error_last(paths, p);
        assert forall|j: int| 0 <= j < p.len() implies #[trigger] p[j] == contents[j] by {}
        if contents.last() is Ok {
            assert forall|i: int|
                0 <= i < contents.len() && (forall|j: int| i < j < contents.len() ==> #[trigger] contents[j] is Ok)
                    && #[trigger] contents[i] is Err implies load_error(paths, contents) == Some(
                msg_read_failed(paths[i], contents[i]->Err_0),
            ) by {
                assert(i < n);
                assert(p[i] == contents[i]);
                assert forall|j: int| i < j < p.len() implies #[trigger] p[j] is Ok by {
                    assert(contents[j] is Ok);
                }
            }
            if load_error(paths, contents) is None {
                assert forall|j: int| 0 <= j < contents.len() implies #[trigger] contents[j] is Ok by {
                    if j < n {
                        assert(p[j] is Ok);
                    }
                }
            }
        } else {
            assert(!(contents[n] is Ok));
            assert forall|i: int|
                0 <= i < contents.len() && (forall|j: int| i < j < contents.len() ==> #[trigger] contents[j] is Ok)
                    && #[trigger] contents[i] is Err implies load_error(paths, contents) == Some(
                msg_read_failed(paths[i], contents[i]->Err_0),
            ) by {
                if i < n {
                    assert(contents[n] is Ok);
                }
            }
        }
    }
}

/// The views of a sequence of strings.
pub open spec fn views(v: Seq<String>) -> Seq<Seq<char>> {
    v.map_values(|s: String| s@)
}

// ---------------------------------------------------------------------------
// Where restored data goes
// ---------------------------------------------------------------------------

/// Where a restored file is written; the caller turns it into a path of
/// its system.
#[derive(Debug, Clone, PartialEq, Eq)]
pub enum OutputLocation {
    /// The file name alone, relative to the working directory.
    Bare(String),
    /// In the directory of the given input file (bare when it has none).
    BesideFile(String, String),
    /// In `Downloads` under the home directory.
    InDownloads(String),
    /// In the given directory.
    InDir(String, String),
}

/// The content of an `OutputLocation`.
pub ghost enum LocationModel {
    Bare(Seq<char>),
    BesideFile(Seq<char>, Seq<char>),
    InDownloads(Seq<char>),
    InDir(Seq<char>, Seq<char>),
}

impl View for OutputLocation {
    type V = LocationModel;

    open spec fn view(&self) -> LocationModel {
        match self {
            OutputLocation::Bare(n) => LocationModel::Bare(n@),
            OutputLocation::BesideFile(f, n) => LocationModel::BesideFile(f@, n@),
            OutputLocation::InDownloads(n) => LocationModel::InDownloads(n@),
            OutputLocation::InDir(d, n) => LocationModel::InDir(d@, n@),
        }
    }
}

/// Where a file named `name` goes under the choice `dir`, the input files
/// being `inputs`.
pub open spec fn location_for(dir: OutputDir, inputs: Seq<Seq<char>>, name: Seq<char>) -> LocationModel {
    match dir {
        OutputDir::SameAsInput => if inputs.len() == 0 {
            LocationModel::Bare(name)
        } else {
            LocationModel::BesideFile(inputs[0], name)
        },
        OutputDir::Downloads => LocationModel::InDownloads(name),
        OutputDir::CurrentDir => LocationModel::Bare(name),
        OutputDir::Custom(d) => LocationModel::InDir(d@, name),
    }
}

/// The folder to show after restoring; the caller turns it into a path of
/// its system.
#[derive(Debug, Clone, PartialEq, Eq)]
pub enum FolderLocation {
    /// The directory of the given file (`.` when it has none).
    ParentOf(String),
    /// The given directory.
    Dir(String),
    /// `Downloads` under the home directory.
    Downloads,
    /// The working directory.
    CurrentDir,
}

/// The content of a `FolderLocation`.
pub ghost enum FolderModel {
    ParentOf(Seq<char>),
    Dir(Seq<char>),
    Downloads,
    CurrentDir,
}

impl View for FolderLocation {
    type V = FolderModel;

    open spec fn view(&self) -> FolderModel {
        match self {
            FolderLocation::ParentOf(f) => FolderModel::ParentOf(f@),
            FolderLocation::Dir(d) => FolderModel::Dir(d@),
            FolderLocation::Downloads => FolderModel::Downloads,
            FolderLocation::CurrentDir => FolderModel::CurrentDir,
        }
    }
}

/// The folder that holds what the choice `dir` writes.
pub open spec fn folder_for(dir: OutputDir, inputs: Seq<Seq<char>>) -> FolderModel {
    match dir {
        OutputDir::SameAsInput => if inputs.len() == 0 {
            FolderModel::Dir("."@)
        } else {
            FolderModel::ParentOf(inputs[0])
        },
        OutputDir::Downloads => FolderModel::Downloads,
        OutputDir::CurrentDir => FolderModel::CurrentDir,
        OutputDir::Custom(d) => FolderModel::Dir(d@),
    }
}

// ---------------------------------------------------------------------------
// Restoring the selected entries
// ---------------------------------------------------------------------------

/// The name restored data gets when its entry has none.
pub open spec fn output_name() -> Seq<char> {
    "output"@
}

pub open spec fn msg_restore_failed(hash: Seq<char>, e: Seq<char>) -> Seq<char> {
    "復元エラー ("@ + hash + "): "@ + e
}

pub open spec fn msg_utf8_failed(e: Seq<char>) -> Seq<char> {
    "UTF-8変換エラー: "@ + e
}

pub open spec fn msg_write_failed(path: Seq<char>, e: Seq<char>) -> Seq<char> {
    "ファイル書き込みエラー ("@ + path + "): "@ + e
}

pub open spec fn msg_text_restored() -> Seq<char> {
    "テキストを復元しました"@
}

pub open spec fn msg_files_restored(n: nat) -> Seq<char> {
    decimal(n) + "件のファイルを復元しました"@
}

/// What restoring one selected entry came to.
pub ghost enum StepModel {
    /// Text typed in, restored.
    Text(Seq<char>),
    /// A file to write (its location and bytes go in the write request).
    Write,
    /// A failure, with its message.
    Fail(Seq<char>),
}

/// One restored entry in the decoding under way.
pub enum DecodeStep {
    Text(String),
    Write,
    Fail(String),
}

impl View for DecodeStep {
    type V = StepModel;

    open spec fn view(&self) -> StepModel {
        match self {
            DecodeStep::Text(t) => StepModel::Text(t@),
            DecodeStep::Write => StepModel::Write,
            DecodeStep::Fail(m) => StepModel::Fail(m@),
        }
    }
}

/// A restored file to write.
pub struct WriteRequest {
    pub location: OutputLocation,
    pub data: Vec<u8>,
}

/// Why a write failed: the path as the system shows it, and the error's
/// text.
pub struct WriteFailure {
    pub shown_path: String,
    pub error: String,
}

/// The location and bytes of each write request.
pub open spec fn request_views(v: Seq<WriteRequest>) -> Seq<(LocationModel, Seq<u8>)> {
    v.map_values(|r: WriteRequest| (r.location@, r.data@))
}

/// The outcome of each write, by view.
pub open spec fn result_views(v: Seq<Result<(), WriteFailure>>) -> Seq<Result<(), (Seq<char>, Seq<char>)>> {
    v.map_values(
        |r: Result<(), WriteFailure>|
            match r {
                Ok(_) => Ok(()),
                Err(f) => Err((f.shown_path@, f.error@)),
            },
    )
}

/// `step` (with the write it asks for, if any) is what restoring the entry
/// `e`, selected under the hash `h`, comes to: its data is rebuilt (see
/// `reconstruct_spec`); text typed in is decoded as UTF-8; a file goes where
/// `dir` says, under its recorded name (`output` without one).
pub open spec fn step_for(
    e: EntryModel,
    h: Seq<char>,
    dir: OutputDir,
    inputs: Seq<Seq<char>>,
    step: StepModel,
    write: Option<(LocationModel, Seq<u8>)>,
) -> bool {
    match reconstruct_spec(e) {
        Ok(d) => {
            let name = match e.filename {
                Some(f) => f,
                None => output_name(),
            };
            if name == direct_text_name() {
                &&& write is None
                &&& if valid_utf8(d) {
                    step == StepModel::Text(decode_utf8(d))
                } else {
                    step matches StepModel::Fail(m) && exists|x: Seq<char>| m == #[trigger] msg_utf8_failed(x)
                }
            } else {
                step == StepModel::Write && write == Some((location_for(dir, inputs, name), d))
            }
        },
        Err(err) => write is None && (step matches StepModel::Fail(m) && exists|x: Seq<char>|
            describes(err, x) && m == #[trigger] msg_restore_failed(h, x)),
    }
}

/// `steps` and `writes` are what restoring the hashes `sel` comes to, in
/// order; hashes without an entry are passed over.
pub open spec fn plan_for(
    sel: Seq<Seq<char>>,
    entries: Seq<EntryModel>,
    dir: OutputDir,
    inputs: Seq<Seq<char>>,
    steps: Seq<StepModel>,
    writes: Seq<(LocationModel, Seq<u8>)>,
) -> bool
    decreases sel.len(),
{
    if sel.len() == 0 {
        steps.len() == 0 && writes.len() == 0
    } else {
        let h = sel.last();
        match find_entry(entries, h, 0) {
            None => plan_for(sel.drop_last(), entries, dir, inputs, steps, writes),
            Some(k) => steps.len() > 0 && {
                ||| {
                    &&& step_for(entries[k], h, dir, inputs, steps.last(), None)
                    &&& plan_for(sel.drop_last(), entries, dir, inputs, steps.drop_last(), writes)
                }
                ||| {
                    &&& writes.len() > 0
                    &&& step_for(entries[k], h, dir, inputs, steps.last(), Some(writes.last()))
                    &&& plan_for(
                        sel.drop_last(),
                        entries,
                        dir,
                        inputs,
                        steps.drop_last(),
                        writes.drop_last(),
                    )
                }
            },
        }
    }
}

/// The number of writes that `steps` asks for.
pub open spec fn writes_in(steps: Seq<StepModel>) -> nat
    decreases steps.len(),
{
    if steps.len() == 0 {
        0
    } else {
        writes_in(steps.drop_last()) + if steps.last() == StepModel::Write {
            1nat
        } else {
            0nat
        }
    }
}

/// What the steps leave when the writes end as `results`: the last text
/// restored, the last error and the number of files written.
pub ghost struct DecodeOutcome {
    pub text: Option<Seq<char>>,
    pub error: Option<Seq<char>>,
    pub written: nat,
}

pub open spec fn outcome_of(steps: Seq<StepModel>, results: Seq<Result<(), (Seq<char>, Seq<char>)>>) -> DecodeOutcome
    decreases steps.len(),
{
    if steps.len() == 0 {
        DecodeOutcome { text: None, error: None, written: 0 }
    } else {
        let o = outcome_of(steps.drop_last(), results);
        match steps.last() {
            StepModel::Text(t) => DecodeOutcome { text: Some(t), ..o },
            StepModel::Fail(m) => DecodeOutcome { error: Some(m), ..o },
            StepModel::Write => match results[writes_in(steps.drop_last()) as int] {
                Ok(_) => DecodeOutcome { written: o.written + 1, ..o },
                Err((p, e)) => DecodeOutcome { error: Some(msg_write_failed(p, e)), ..o },
            },
        }
    }
}

/// The status line after restoring: none after an error, else what was
/// restored.
pub open spec fn status_after(o: DecodeOutcome) -> Option<Seq<char>> {
    if o.error is Some {
        None
    } else if o.text is Some {
        Some(msg_text_restored())
    } else {
        Some(msg_files_restored(o.written))
    }
}

/// A plan asks for one write for each step that writes, and no other.
pub proof fn lemma_plan_writes(
    sel: Seq<Seq<char>>,
    entries: Seq<EntryModel>,
    dir: OutputDir,
    inputs: Seq<Seq<char>>,
    steps: Seq<StepModel>,
    writes: Seq<(LocationModel, Seq<u8>)>,
)
    requires
        plan_for(sel, entries, dir, inputs, steps, writes),
    ensures
        writes.len() == writes_in(steps),
    decreases sel.len(),
{
    if sel.len() > 0 {
        let h = sel.last();
        match find_entry(entries, h, 0) {
            None => lemma_plan_writes(sel.drop_last(), entries, dir, inputs, steps, writes),
            Some(k) => {
                if step_for(entries[k], h, dir, inputs, steps.last(), None) && plan_for(
                    sel.drop_last(),
                    entries,
                    dir,
                    inputs,
                    steps.drop_last(),
                    writes,
                ) {
                    lemma_plan_writes(sel.drop_last(), entries, dir, inputs, steps.drop_last(), writes);
                    assert(steps.last() != StepModel::Write);
                } else {
                    lemma_plan_writes(
                        sel.drop_last(),
                        entries,
                        dir,
                        inputs,
                        steps.drop_last(),
                        writes.drop_last(),
                    );
                    assert(steps.last() == StepModel::Write);
                }
            },
        }
    }
}

/// The number of writes that went well.
pub open spec fn count_ok(results: Seq<Result<(), (Seq<char>, Seq<char>)>>) -> nat
    decreases results.len(),
{
    if results.len() == 0 {
        0
    } else {
        count_ok(results.drop_last()) + if results.last() is Ok {
            1nat
        } else {
            0nat
        }
    }
}

/// The path and error of the last write that failed, if any.
pub open spec fn last_err(results: Seq<Result<(), (Seq<char>, Seq<char>)>>) -> Option<
    (Seq<char>, Seq<char>),
>
    decreases results.len(),
{
    if results.len() == 0 {
        None
    } else {
        match results.last() {
            Err(x) => Some(x),
            Ok(_) => last_err(results.drop_last()),
        }
    }
}

/// No step failed before writing.
pub open spec fn no_fail(steps: Seq<StepModel>) -> bool {
    forall|k: int| 0 <= k < steps.len() ==> !(#[trigger] steps[k] is Fail)
}

/// No step restored typed-in text.
pub open spec fn no_text(steps: Seq<StepModel>) -> bool {
    forall|k: int| 0 <= k < steps.len() ==> !(#[trigger] steps[k] is Text)
}

/// The outcome of the steps depends only on the results of their own
/// writes.
proof fn lemma_outcome_reads_own_writes(
    steps: Seq<StepModel>,
    r1: Seq<Result<(), (Seq<char>, Seq<char>)>>,
    r2: Seq<Result<(), (Seq<char>, Seq<char>)>>,
)
    requires
        r1.len() >= writes_in(steps),
        r2.len() >= writes_in(steps),
        forall|i: int| 0 <= i < writes_in(steps) ==> r1[i] == r2[i],
    ensures
        outcome_of(steps, r1) == outcome_of(steps, r2),
    decreases steps.len(),
{
    if steps.len() > 0 {
        lemma_outcome_reads_own_writes(steps.drop_last(), r1, r2);
    }
}

/// The text shown is that of the last step that restored text.
pub proof fn lemma_text_of_last_text_step(
    steps: Seq<StepModel>,
    results: Seq<Result<(), (Seq<char>, Seq<char>)>>,
    k: int,
    t: Seq<char>,
)
    requires
        0 <= k < steps.len(),
        steps[k] == StepModel::Text(t),
        forall|j: int| k < j < steps.len() ==> !(#[trigger] steps[j] is Text),
    ensures
        outcome_of(steps, results).text == Some(t),
    decreases steps.len(),
{
    if k < steps.len() - 1 {
        let s = steps.drop_last();
        assert(s[k] == steps[k]);
        assert forall|j: int| k < j < s.len() implies !(#[trigger] s[j] is Text) by {
            assert(s[j] == steps[j]);
        }
        assert(!(steps[steps.len() - 1] is Text));
        lemma_text_of_last_text_step(s, results, k, t);
    }
}

/// Each write is judged by its own result, in order: the status counts
/// the writes that went well; without a failed step, the error shown is
/// that of the last write that failed; nothing went wrong exactly when no
/// step failed and every write went well; and when only files were
/// written, all of them well, the status says how many.
pub proof fn lemma_writes_judged_in_order(
    steps: Seq<StepModel>,
    results: Seq<Result<(), (Seq<char>, Seq<char>)>>,
)
    requires
        results.len() == writes_in(steps),
    ensures
        outcome_of(steps, results).written == count_ok(results),
        no_fail(steps) ==> outcome_of(steps, results).error == match last_err(results) {
            Some((p, e)) => Some(msg_write_failed(p, e)),
            None => None,
        },
        outcome_of(steps, results).error is None <==> (no_fail(steps) && last_err(results) is None),
        no_text(steps) ==> outcome_of(steps, results).text is None,
        last_err(results) is None ==> count_ok(results) == results.len(),
        no_fail(steps) && no_text(steps) && last_err(results) is None ==> status_after(
            outcome_of(steps, results),
        ) == Some(msg_files_restored(results.len())),
    decreases steps.len(),
{
    if steps.len() > 0 {
        let s = steps.drop_last();
        let w = writes_in(s);
        let r = results.take(w as int);
        assert(no_fail(steps) ==> no_fail(s)) by {
            if no_fail(steps) {
                assert forall|k: int| 0 <= k < s.len() implies !(#[trigger] s[k] is Fail) by {
                    assert(s[k] == steps[k]);
                }
            }
        }
        assert(no_text(steps) ==> no_text(s)) by {
            if no_text(steps) {
                assert forall|k: int| 0 <= k < s.len() implies !(#[trigger] s[k] is Text) by {
                    assert(s[k] == steps[k]);
                }
            }
        }
        if steps.last() is Fail {
            assert(!no_fail(steps));
        }
        if no_fail(s) && !(steps.last() is Fail) {
            assert forall|k: int| 0 <= k < steps.len() implies !(#[trigger] steps[k] is Fail) by {
                if k < s.len() {
                    assert(steps[k] == s[k]);
                }
            }
        }
        if !no_fail(s) {
            let k = choose|k: int| 0 <= k < s.len() && #[trigger] s[k] is Fail;
            assert(steps[k] == s[k]);
            assert(!no_fail(steps));
        }
        if steps.last() is Text {
            assert(!no_text(steps));
        }
        lemma_writes_judged_in_order(s, r);
        lemma_outcome_reads_own_writes(s, results, r);
        if steps.last() == StepModel::Write {
            assert(results.drop_last() =~= r);
        } else {
            assert(r =~= results);
        }
    } else {
        assert(results.len() == 0);
    }
}

/// A prefix asks for no more writes than the whole.
pub proof fn lemma_writes_in_prefix(steps: Seq<StepModel>, i: int)
    requires
        0 <= i <= steps.len(),
    ensures
        writes_in(steps.take(i)) <= writes_in(steps),
    decreases steps.len() - i,
{
    if i < steps.len() {
        lemma_writes_in_prefix(steps, i + 1);
        assert(steps.take(i + 1).drop_last() =~= steps.take(i));
    } else {
        assert(steps.take(i) =~= steps);
    }
}

// ---------------------------------------------------------------------------
// The panel
// ---------------------------------------------------------------------------

/// What the user did on the panel.
#[derive(Debug, Clone)]
pub enum DecodeMessage {
    FilePathInputChanged(String),
    AddFilePressed,
    FilePickRequested,
    FileDropped(String),
    RemoveFile(usize),
    HashToggled(String, bool),
    OutputDirChanged(OutputDir),
    CustomDirChanged(String),
    CustomDirPickRequested,
    DecodePressed,
    OpenFolderPressed,
}

/// What the caller must do after a reaction.
pub enum DecodeAction {
    /// Nothing.
    Nothing,
    /// Read these files (the input files, in order) and hand what each gave
    /// to `files_loaded`.
    ReadFiles(Vec<String>),
    /// Show a dialog for input files and hand the choice to `files_picked`.
    PickFiles,
    /// Show a folder dialog and hand the choice to `folder_picked`.
    PickFolder,
    /// Write these files, in order, and hand the outcomes to `writes_done`.
    WriteFiles(Vec<WriteRequest>),
    /// Show this folder.
    OpenFolder(FolderLocation),
}

pub struct DecodePanel {
    pub input_files: Vec<String>,
    pub file_path_input: String,
    pub entries: EntryMap,
    pub selected_hashes: HashSelection,
    pub output_dir: OutputDir,
    pub custom_dir: String,
    pub decoded_text: Option<String>,
    pub status_msg: Option<String>,
    pub error_msg: Option<String>,
    /// The restored entries of the decoding under way, until the writes
    /// they ask for are done.
    pub pending: Vec<DecodeStep>,
}

/// `s` with the path `p` added, unless it is empty or already there.
pub open spec fn add_path(s: Seq<Seq<char>>, p: Seq<char>) -> Seq<Seq<char>> {
    if p.len() == 0 || s.contains(p) {
        s
    } else {
        s.push(p)
    }
}

/// `s` with each of `ps` added in turn.
pub open spec fn add_paths(s: Seq<Seq<char>>, ps: Seq<Seq<char>>) -> Seq<Seq<char>>
    decreases ps.len(),
{
    if ps.len() == 0 {
        s
    } else {
        add_path(add_paths(s, ps.drop_last()), ps.last())
    }
}

/// The input files never hold an empty path or a path twice: adding paths
/// keeps that so.
pub proof fn lemma_add_paths_distinct(s: Seq<Seq<char>>, ps: Seq<Seq<char>>)
    requires
        s.no_duplicates(),
        forall|i: int| 0 <= i < s.len() ==> #[trigger] s[i].len() > 0,
    ensures
        add_paths(s, ps).no_duplicates(),
        forall|i: int| 0 <= i < add_paths(s, ps).len() ==> #[trigger] add_paths(s, ps)[i].len() > 0,
    decreases ps.len(),
{
    if ps.len() > 0 {
        lemma_add_paths_distinct(s, ps.drop_last());
        let t = add_paths(s, ps.drop_last());
        let p = ps.last();
        if !(p.len() == 0 || t.contains(p)) {
            let q = t.push(p);
            assert forall|i: int, j: int| 0 <= i < q.len() && 0 <= j < q.len() && i != j implies q[i]
                != q[j] by {
                if i < t.len() && j < t.len() {
                } else if i < t.len() {
                    assert(t.contains(q[i]));
                } else {
                    assert(t.contains(q[j]));
                }
            }
            assert forall|i: int| 0 <= i < q.len() implies #[trigger] q[i].len() > 0 by {
                if i < t.len() {
                    assert(q[i] == t[i]);
                }
            }
        }
    }
}

/// The reading asked for when the input files are now `inputs`.
pub open spec fn reread(action: DecodeAction, inputs: Seq<String>) -> bool {
    action matches DecodeAction::ReadFiles(v) && views(v@) == views(inputs)
}

/// `new` is `old` with the paths `ps` added in turn (see `add_paths`),
/// asking for the input files to be read again when the list changed.
pub open spec fn after_adding(
    old: DecodePanel,
    ps: Seq<Seq<char>>,
    new: DecodePanel,
    action: DecodeAction,
) -> bool {
    &&& views(new.input_files@) == add_paths(views(old.input_files@), ps)
    &&& new == (DecodePanel { input_files: new.input_files, ..old })
    &&& if new.input_files@.len() > old.input_files@.len() {
        reread(action, new.input_files@)
    } else {
        action is Nothing
    }
}

/// How `update` changes the panel `old` into `new` on `msg`, asking for
/// `action`.
pub open spec fn decode_step(old: DecodePanel, msg: DecodeMessage, new: DecodePanel, action: DecodeAction) -> bool {
    match msg {
        DecodeMessage::FilePathInputChanged(t) => new == (DecodePanel {
            file_path_input: t,
            ..old
        }) && action is Nothing,
        DecodeMessage::AddFilePressed => {
            &&& new.file_path_input@.len() == 0
            &&& after_adding(
                DecodePanel { file_path_input: new.file_path_input, ..old },
                seq![old.file_path_input@],
                new,
                action,
            )
        },
        DecodeMessage::FilePickRequested => new == old && action is PickFiles,
        DecodeMessage::FileDropped(p) => after_adding(old, seq![p@], new, action),
        DecodeMessage::RemoveFile(idx) => if idx < old.input_files@.len() {
            &&& views(new.input_files@) == views(old.input_files@).remove(idx as int)
            &&& new == (DecodePanel { input_files: new.input_files, ..old })
            &&& reread(action, new.input_files@)
        } else {
            new == old && action is Nothing
        },
        DecodeMessage::HashToggled(h, checked) => {
            &&& new.selected_hashes@ == if checked {
                if old.selected_hashes@.contains(h@) {
                    old.selected_hashes@
                } else {
                    old.selected_hashes@.push(h@)
                }
            } else {
                without(old.selected_hashes@, h@)
            }
            &&& new == (DecodePanel {
                selected_hashes: new.selected_hashes,
                ..old
            })
            &&& action is Nothing
        },
        DecodeMessage::OutputDirChanged(d) => new == (DecodePanel {
            output_dir: d,
            ..old
        }) && action is Nothing,
        DecodeMessage::CustomDirChanged(d) => new == (DecodePanel {
            custom_dir: d,
            output_dir: OutputDir::Custom(d),
            ..old
        }) && action is Nothing,
        DecodeMessage::CustomDirPickRequested => new == old && action is PickFolder,
        DecodeMessage::DecodePressed => if old.selected_hashes@.len() == 0 {
            new == old && action is Nothing
        } else {
            &&& new == (DecodePanel {
                decoded_text: None,
                status_msg: None,
                error_msg: None,
                pending: new.pending,
                ..old
            })
            &&& action matches DecodeAction::WriteFiles(reqs) && plan_for(
                old.selected_hashes@,
                old.entries@,
                old.output_dir,
                views(old.input_files@),
                new.pending_steps(),
                request_views(reqs@),
            ) && reqs@.len() == writes_in(new.pending_steps())
        },
        DecodeMessage::OpenFolderPressed => new == old && (action matches DecodeAction::OpenFolder(f)
            && f@ == folder_for(old.output_dir, views(old.input_files@))),
    }
}

/// The input files hold no empty path and no path twice.
pub open spec fn inputs_ok(p: DecodePanel) -> bool {
    &&& views(p.input_files@).no_duplicates()
    &&& forall|i: int| 0 <= i < p.input_files@.len() ==> #[trigger] views(p.input_files@)[i].len() > 0
}

/// Adding paths to the input files (`files_picked`, and the adding
/// messages of `update`) keeps them free of empty and repeated paths.
pub proof fn lemma_adding_keeps_inputs_ok(
    old: DecodePanel,
    ps: Seq<Seq<char>>,
    new: DecodePanel,
    action: DecodeAction,
)
    requires
        inputs_ok(old),
        after_adding(old, ps, new, action),
    ensures
        inputs_ok(new),
{
    let s = views(old.input_files@);
    assert forall|i: int| 0 <= i < s.len() implies #[trigger] s[i].len() > 0 by {}
    lemma_add_paths_distinct(s, ps);
    assert forall|i: int| 0 <= i < new.input_files@.len() implies #[trigger] views(
        new.input_files@,
    )[i].len() > 0 by {
        assert(views(new.input_files@)[i] == add_paths(s, ps)[i]);
    }
}

/// Every message keeps the input files free of empty and repeated paths:
/// the panel starts with none, adding passes over an empty or listed path,
/// and removing takes one out.
pub proof fn lemma_update_keeps_inputs_ok(
    old: DecodePanel,
    msg: DecodeMessage,
    new: DecodePanel,
    action: DecodeAction,
)
    requires
        inputs_ok(old),
        decode_step(old, msg, new, action),
    ensures
        inputs_ok(new),
{
    match msg {
        DecodeMessage::AddFilePressed => {
            let mid = DecodePanel { file_path_input: new.file_path_input, ..old };
            assert(inputs_ok(mid));
            lemma_adding_keeps_inputs_ok(mid, seq![old.file_path_input@], new, action);
        },
        DecodeMessage::FileDropped(p) => {
            lemma_adding_keeps_inputs_ok(old, seq![p@], new, action);
        },
        DecodeMessage::RemoveFile(idx) => {
            if idx < old.input_files@.len() {
                let s = views(old.input_files@);
                let t = views(new.input_files@);
                assert(t == s.remove(idx as int));
                assert forall|i: int| 0 <= i < t.len() implies #[trigger] t[i].len() > 0 by {
                    if i < idx {
                        assert(t[i] == s[i]);
                    } else {
                        assert(t[i] == s[i + 1]);
                    }
                }
                assert forall|i: int, j: int| 0 <= i < t.len() && 0 <= j < t.len() && i != j implies t[i]
                    != t[j] by {
                    let a = if i < idx { i } else { i + 1 };
                    let b = if j < idx { j } else { j + 1 };
                    assert(t[i] == s[a]);
                    assert(t[j] == s[b]);
                }
            }
        },
        _ => {},
    }
}

impl Default for DecodePanel {
    fn default() -> (r: Self)
        ensures
            r.input_files@.len() == 0,
            r.file_path_input@ == Seq::<char>::empty(),
            r.entries@.len() == 0,
            r.selected_hashes@.len() == 0,
            r.output_dir == OutputDir::SameAsInput,
            r.custom_dir@ == Seq::<char>::empty(),
            r.decoded_text is None,
            r.status_msg is None,
            r.error_msg is None,
            r.pending_steps().len() == 0,
    {
        let r = DecodePanel {
            input_files: Vec::new(),
            file_path_input: String::new(),
            entries: parse_lines(&[]),
            selected_hashes: HashSelection::new(),
            output_dir: OutputDir::SameAsInput,
            custom_dir: String::new(),
            decoded_text: None,
            status_msg: None,
            error_msg: None,
            pending: Vec::new(),
        };
        assert(r.entries@ == parse_lines_spec(Seq::empty())) by {
            assert(str_views(Seq::<&str>::empty()) =~= Seq::<Seq<char>>::empty());
        }
        r
    }
}

impl DecodePanel {
    /// The restored entries of the decoding under way.
    pub open spec fn pending_steps(&self) -> Seq<StepModel> {
        self.pending@.map_values(|s: DecodeStep| s@)
    }

    /// Whether restoring can be asked for: some hash is selected.
    pub fn can_decode(&self) -> (r: bool)
        ensures
            r == (self.selected_hashes@.len() > 0),
    {
        !self.selected_hashes.is_empty()
    }

    /// Whether to offer opening the output folder: the status tells of
    /// restored files.
    pub fn offers_open_folder(&self) -> (r: bool)
        ensures
            r == (self.status_msg matches Some(m) && has_infix(m@, "ファイルを復元"@)),
    {
        match &self.status_msg {
            Some(m) => contains_str(m.as_str(), "ファイルを復元"),
            None => false,
        }
    }

    /// Whether `path` is among the input files.
    fn has_input(&self, path: &String) -> (r: bool)
        ensures
            r == views(self.input_files@).contains(path@),
    {
        let mut i: usize = 0;
        while i < self.input_files.len()
            invariant
                i <= self.input_files@.len(),
                forall|j: int| 0 <= j < i ==> #[trigger] views(self.input_files@)[j] != path@,
            decreases self.input_files@.len() - i,
        {
            if self.input_files[i] == *path {
                assert(views(self.input_files@)[i as int] == path@);
                return true;
            }
            i += 1;
        }
        false
    }

    /// Adds an input file (see `add_path`); says whether it was added.
    fn add_file(&mut self, path: String) -> (added: bool)
        ensures
            views(final(self).input_files@) == add_path(views(old(self).input_files@), path@),
            final(self).input_files@.len() >= old(self).input_files@.len(),
            added == (final(self).input_files@.len() > old(self).input_files@.len()),
            *final(self) == (DecodePanel { input_files: final(self).input_files, ..*old(self) }),
    {
        if path.as_str().is_empty() || self.has_input(&path) {
            false
        } else {
            let ghost before = views(self.input_files@);
            self.input_files.push(path);
            assert(views(self.input_files@) =~= before.push(path@));
            true
        }
    }

    /// Adds the paths in turn (see `add_paths`); says whether any was added.
    fn add_files(&mut self, paths: &Vec<String>) -> (added: bool)
        ensures
            views(final(self).input_files@) == add_paths(views(old(self).input_files@), views(paths@)),
            added == (final(self).input_files@.len() > old(self).input_files@.len()),
            *final(self) == (DecodePanel { input_files: final(self).input_files, ..*old(self) }),
    {
        let ghost start = *self;
        let ghost ps = views(paths@);
        let mut added = false;
        let mut i: usize = 0;
        while i < paths.len()
            invariant
                i <= paths@.len(),
                ps == views(paths@),
                views(self.input_files@) == add_paths(views(start.input_files@), ps.take(i as int)),
                self.input_files@.len() >= start.input_files@.len(),
                added == (self.input_files@.len() > start.input_files@.len()),
                *self == (DecodePanel { input_files: self.input_files, ..start }),
            decreases paths@.len() - i,
        {
            proof {
                assert(ps.take(i + 1).drop_last() =~= ps.take(i as int));
            }
            let p = paths[i].clone();
            let a = self.add_file(p);
            added = added || a;
            i += 1;
        }
        assert(ps.take(paths@.len() as int) =~= ps);
        added
    }

    /// Rebuilds the entries from the input files: `contents` is what reading
    /// each of them gave, in order (the text, or the error's text). The lines
    /// of the files that could be read are parsed together; the error message
    /// names the last file that could not be read.
    pub fn files_loaded(&mut self, contents: Vec<Result<String, String>>)
        requires
            contents@.len() == old(self).input_files@.len(),
        ensures
            final(self).entries@ == parse_lines_spec(loaded_lines(read_views(contents@))),
            opt_string_view(final(self).error_msg) == load_error(
                views(old(self).input_files@),
                read_views(contents@),
            ),
            *final(self) == (DecodePanel {
                entries: final(self).entries,
                error_msg: final(self).error_msg,
                ..*old(self)
            }),
    {
        let ghost rv = read_views(contents@);
        let ghost paths = views(self.input_files@);
        let mut lines: Vec<&str> = Vec::new();
        let mut err: Option<String> = None;
        let mut i: usize = 0;
        while i < contents.len()
            invariant
                i <= contents@.len(),
                contents@.len() == self.input_files@.len(),
                rv == read_views(contents@),
                paths == views(self.input_files@),
                str_views(lines@) == loaded_lines(rv.take(i as int)),
                opt_string_view(err) == load_error(paths, rv.take(i as int)),
            decreases contents@.len() - i,
        {
            proof {
                assert(rv.take(i + 1).drop_last() =~= rv.take(i as int));
            }
            match &contents[i] {
                Ok(c) => {
                    let ls = extract_lines(c.as_str());
                    let ghost before = str_views(lines@);
                    let mut j: usize = 0;
                    while j < ls.len()
                        invariant
                            j <= ls@.len(),
                            str_views(lines@) == before + str_views(ls@).take(j as int),
                        decreases ls@.len() - j,
                    {
                        let ghost old_lines = lines@;
                        lines.push(ls[j]);
                        assert(lines@ == old_lines.push(ls@[j as int]));
                        assert(str_views(lines@) =~= str_views(old_lines).push(ls@[j as int]@));
                        assert(str_views(ls@).take(j + 1) =~= str_views(ls@).take(j as int).push(ls@[j as int]@));
                        assert(str_views(lines@) =~= before + str_views(ls@).take(j + 1));
                        j += 1;
                    }
                    assert(str_views(ls@).take(ls@.len() as int) =~= str_views(ls@));
                },
                Err(e) => {
                    let mut v = str_to_chars("ファイル読み込みエラー (");
                    append_str(&mut v, self.input_files[i].as_str());
                    append_str(&mut v, "): ");
                    append_str(&mut v, e.as_str());
                    err = Some(string_from_chars(&v));
                },
            }
            i += 1;
        }
        assert(rv.take(contents@.len() as int) =~= rv);
        self.entries = parse_lines(lines.as_slice());
        self.error_msg = err;
    }

    /// Where a restored file named `filename` goes (see `location_for`).
    pub fn resolve_output_path(&self, filename: &str) -> (r: OutputLocation)
        ensures
            r@ == location_for(self.output_dir, views(self.input_files@), filename@),
    {
        let name = filename.to_owned();
        match &self.output_dir {
            OutputDir::SameAsInput => {
                if self.input_files.len() == 0 {
                    OutputLocation::Bare(name)
                } else {
                    OutputLocation::BesideFile(self.input_files[0].clone(), name)
                }
            },
            OutputDir::Downloads => OutputLocation::InDownloads(name),
            OutputDir::CurrentDir => OutputLocation::Bare(name),
            OutputDir::Custom(d) => OutputLocation::InDir(d.clone(), name),
        }
    }

    /// The folder that holds what the output choice writes (see `folder_for`).
    pub fn output_folder(&self) -> (r: FolderLocation)
        ensures
            r@ == folder_for(self.output_dir, views(self.input_files@)),
    {
        match &self.output_dir {
            OutputDir::SameAsInput => {
                if self.input_files.len() == 0 {
                    FolderLocation::Dir(".".to_owned())
                } else {
                    FolderLocation::ParentOf(self.input_files[0].clone())
                }
            },
            OutputDir::Downloads => FolderLocation::Downloads,
            OutputDir::CurrentDir => FolderLocation::CurrentDir,
            OutputDir::Custom(d) => FolderLocation::Dir(d.clone()),
        }
    }

    /// Restores one selected entry (see `step_for`).
    fn restore_entry(&self, e: &HashEntry, h: &String) -> (r: (DecodeStep, Option<WriteRequest>))
        ensures
            step_for(
                e@,
                h@,
                self.output_dir,
                views(self.input_files@),
                r.0@,
                match r.1 {
                    Some(w) => Some((w.location@, w.data@)),
                    None => None,
                },
            ),
    {
        match reconstruct(e) {
            Ok(data) => {
                let name: String = match &e.filename {
                    Some(f) => f.clone(),
                    None => "output".to_owned(),
                };
                let dt = "(direct_text)".to_owned();
                if name == dt {
                    match utf8_to_string(data) {
                        Ok(t) => (DecodeStep::Text(t), None),
                        Err(x) => {
                            let mut v = str_to_chars("UTF-8変換エラー: ");
                            append_str(&mut v, x.as_str());
                            let m = string_from_chars(&v);
                            assert(m@ == msg_utf8_failed(x@));
                            (DecodeStep::Fail(m), None)
                        },
                    }
                } else {
                    let location = self.resolve_output_path(name.as_str());
                    (DecodeStep::Write, Some(WriteRequest { location, data }))
                }
            },
            Err(x) => {
                let mut v = str_to_chars("復元エラー (");
                append_str(&mut v, h.as_str());
                append_str(&mut v, "): ");
                append_str(&mut v, x.as_str());
                let m = string_from_chars(&v);
                assert(m@ == msg_restore_failed(h@, x@));
                (DecodeStep::Fail(m), None)
            },
        }
    }

    /// Starts restoring the selected entries, in the order they were
    /// selected: the messages and the text are cleared, each entry is
    /// restored (see `plan_for`) and the files are asked to be written.
    fn start_decode(&mut self) -> (action: DecodeAction)
        ensures
            *final(self) == (DecodePanel {
                decoded_text: None,
                status_msg: None,
                error_msg: None,
                pending: final(self).pending,
                ..*old(self)
            }),
            action matches DecodeAction::WriteFiles(reqs) && plan_for(
                old(self).selected_hashes@,
                old(self).entries@,
                old(self).output_dir,
                views(old(self).input_files@),
                final(self).pending_steps(),
                request_views(reqs@),
            ) && reqs@.len() == writes_in(final(self).pending_steps()),
    {
        self.decoded_text = None;
        self.status_msg = None;
        self.error_msg = None;
        let ghost sel = self.selected_hashes@;
        let ghost inputs = views(self.input_files@);
        let mut steps: Vec<DecodeStep> = Vec::new();
        let mut reqs: Vec<WriteRequest> = Vec::new();
        let n = self.selected_hashes.len();
        let mut i: usize = 0;
        while i < n
            invariant
                i <= n,
                n == sel.len(),
                sel == self.selected_hashes@,
                inputs == views(self.input_files@),
                plan_for(
                    sel.take(i as int),
                    self.entries@,
                    self.output_dir,
                    inputs,
                    steps@.map_values(|t: DecodeStep| t@),
                    request_views(reqs@),
                ),
            decreases n - i,
        {
            let ghost s0 = steps@.map_values(|t: DecodeStep| t@);
            let ghost r0 = request_views(reqs@);
            proof {
                assert(sel.take(i + 1).drop_last() =~= sel.take(i as int));
                assert(sel.take(i + 1).last() == sel[i as int]);
            }
            let h = self.selected_hashes.get(i);
            match self.entries.get(h.as_str()) {
                None => {},
                Some(e) => {
                    let (step, req) = self.restore_entry(e, h);
                    let ghost sv = step@;
                    steps.push(step);
                    assert(steps@.map_values(|t: DecodeStep| t@) =~= s0.push(sv));
                    assert(s0.push(sv).drop_last() =~= s0);
                    match req {
                        Some(r) => {
                            let ghost rv = (r.location@, r.data@);
                            reqs.push(r);
                            assert(request_views(reqs@) =~= r0.push(rv));
                            assert(r0.push(rv).drop_last() =~= r0);
                        },
                        None => {},
                    }
                },
            }
            i += 1;
        }
        assert(sel.take(n as int) =~= sel);
        proof {
            lemma_plan_writes(
                sel,
                self.entries@,
                self.output_dir,
                inputs,
                steps@.map_values(|t: DecodeStep| t@),
                request_views(reqs@),
            );
        }
        self.pending = steps;
        DecodeAction::WriteFiles(reqs)
    }

    /// Ends the restoring under way: `results` is how each write asked for
    /// went, in order. Sets the restored text, the last error and, when
    /// there is none, the status (see `outcome_of`, `status_after`).
    pub fn writes_done(&mut self, results: Vec<Result<(), WriteFailure>>)
        requires
            results@.len() == writes_in(old(self).pending_steps()),
        ensures
            ({
                let o = outcome_of(old(self).pending_steps(), result_views(results@));
                &&& opt_string_view(final(self).decoded_text) == o.text
                &&& opt_string_view(final(self).error_msg) == o.error
                &&& opt_string_view(final(self).status_msg) == status_after(o)
            }),
            final(self).pending@.len() == 0,
            *final(self) == (DecodePanel {
                decoded_text: final(self).decoded_text,
                error_msg: final(self).error_msg,
                status_msg: final(self).status_msg,
                pending: final(self).pending,
                ..*old(self)
            }),
    {
        let ghost steps = self.pending_steps();
        let ghost rv = result_views(results@);
        let mut text: Option<String> = None;
        let mut err: Option<String> = None;
        let mut written: usize = 0;
        let nres = results.len();
        let mut j: usize = 0;
        let mut i: usize = 0;
        while i < self.pending.len()
            invariant
                i <= self.pending@.len(),
                steps == self.pending_steps(),
                rv == result_views(results@),
                results@.len() == writes_in(steps),
                nres == results@.len(),
                j == writes_in(steps.take(i as int)),
                written <= i,
                ({
                    let o = outcome_of(steps.take(i as int), rv);
                    &&& opt_string_view(text) == o.text
                    &&& opt_string_view(err) == o.error
                    &&& written == o.written
                }),
            decreases self.pending@.len() - i,
        {
            proof {
                assert(steps.take(i + 1).drop_last() =~= steps.take(i as int));
                assert(steps.take(i + 1).last() == steps[i as int]);
                lemma_writes_in_prefix(steps, i + 1);
            }
            match &self.pending[i] {
                DecodeStep::Text(t) => {
                    text = Some(t.clone());
                },
                DecodeStep::Fail(m) => {
                    err = Some(m.clone());
                },
                DecodeStep::Write => {
                    assert(j < nres);
                    match &results[j] {
                        Ok(_) => {
                            written += 1;
                        },
                        Err(f) => {
                            let mut v = str_to_chars("ファイル書き込みエラー (");
                            append_str(&mut v, f.shown_path.as_str());
                            append_str(&mut v, "): ");
                            append_str(&mut v, f.error.as_str());
                            err = Some(string_from_chars(&v));
                        },
                    }
                    j += 1;
                },
            }
            i += 1;
        }
        assert(steps.take(self.pending@.len() as int) =~= steps);
        let status = if err.is_some() {
            None
        } else if text.is_some() {
            Some("テキストを復元しました".to_owned())
        } else {
            let mut v = decimal_chars(written);
            append_str(&mut v, "件のファイルを復元しました");
            Some(string_from_chars(&v))
        };
        self.decoded_text = text;
        self.error_msg = err;
        self.status_msg = status;
        self.pending = Vec::new();
    }

    /// The user picked input files (none when cancelled): they are added in
    /// turn (see `after_adding`).
    pub fn files_picked(&mut self, paths: Vec<String>) -> (action: DecodeAction)
        ensures
            after_adding(*old(self), views(paths@), *final(self), action),
    {
        if self.add_files(&paths) {
            DecodeAction::ReadFiles(self.input_files.clone())
        } else {
            DecodeAction::Nothing
        }
    }

    /// The user picked an output folder (or cancelled): it becomes the
    /// custom output directory.
    pub fn folder_picked(&mut self, dir: Option<String>)
        ensures
            match dir {
                Some(d) => *final(self) == (DecodePanel {
                    custom_dir: d,
                    output_dir: OutputDir::Custom(d),
                    ..*old(self)
                }),
                None => *final(self) == *old(self),
            },
    {
        if let Some(d) = dir {
            self.custom_dir = d.clone();
            self.output_dir = OutputDir::Custom(d);
        }
    }

    /// Reacts to a message. Adding an input file (typed, picked or dropped)
    /// skips empty paths and paths already there, and asks for all input
    /// files to be read again when the list changed; so does removing one.
    /// Restoring with nothing selected does nothing.
    pub fn update(&mut self, msg: DecodeMessage) -> (action: DecodeAction)
        ensures
            decode_step(*old(self), msg, *final(self), action),
    {
        match msg {
            DecodeMessage::FilePathInputChanged(t) => {
                self.file_path_input = t;
                DecodeAction::Nothing
            },
            DecodeMessage::AddFilePressed => {
                let p = self.file_path_input.clone();
                self.file_path_input = String::new();
                let ps = vec![p];
                let ghost ps_view = views(ps@);
                assert(ps_view =~= seq![old(self).file_path_input@]);
                self.files_picked(ps)
            },
            DecodeMessage::FilePickRequested => DecodeAction::PickFiles,
            DecodeMessage::FileDropped(p) => {
                let ghost pv = p@;
                let ps = vec![p];
                assert(views(ps@) =~= seq![pv]);
                self.files_picked(ps)
            },
            DecodeMessage::RemoveFile(idx) => {
                if idx < self.input_files.len() {
                    let ghost before = views(self.input_files@);
                    self.input_files.remove(idx);
                    assert(views(self.input_files@) =~= before.remove(idx as int));
                    DecodeAction::ReadFiles(self.input_files.clone())
                } else {
                    DecodeAction::Nothing
                }
            },
            DecodeMessage::HashToggled(h, checked) => {
                if checked {
                    self.selected_hashes.insert(h);
                } else {
                    self.selected_hashes.remove(h.as_str());
                }
                DecodeAction::Nothing
            },
            DecodeMessage::OutputDirChanged(d) => {
                self.output_dir = d;
                DecodeAction::Nothing
            },
            DecodeMessage::CustomDirChanged(d) => {
                self.custom_dir = d.clone();
                self.output_dir = OutputDir::Custom(d);
                DecodeAction::Nothing
            },
            DecodeMessage::CustomDirPickRequested => DecodeAction::PickFolder,
            DecodeMessage::DecodePressed => {
                if self.selected_hashes.is_empty() {
                    DecodeAction::Nothing
                } else {
                    self.start_decode()
                }
            },
            DecodeMessage::OpenFolderPressed => DecodeAction::OpenFolder(self.output_folder()),
        }
    }
}

} // verus!
