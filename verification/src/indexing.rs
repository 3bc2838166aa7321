//! The indexing engine's decisions and computations.
//!
//! The backend that lists a file's symbols is an outside process that
//! degrades under load; the caller drives it through [`IndexerState`], which
//! restarts the backend after every fixed batch of files and once more after
//! any failed request, retrying a file at most once before recording an
//! empty symbol list for it.  Everything the engine computes from what the
//! backend returned — normalizing symbol names, the textual call heuristic,
//! the staleness check against the persisted maps — is verified here.

use vstd::prelude::*;
use vstd::string::{StrSliceExecFns, StringExecFns};
use crate::searcher::{FileSymbols, FileSymbolsView, CallEntry, CallEntryView, ClangdServer, file_views, entry_views};
use crate::text::{seq_views, str_eq, names_contain};

verus! {

/// How many files are indexed between two backend restarts.
pub const INDEX_BATCH: usize = 10;

/// A symbol as the backend reports it: its name, whether it is a function,
/// and the line range of its body.
#[derive(Debug)]
pub struct RawSymbol {
    pub name: String,
    pub is_function: bool,
    pub start_line: usize,
    pub end_line: usize,
}

/// A function symbol kept by the discovery pass: its normalized name and the
/// line range of its body.
#[derive(Debug)]
pub struct SymbolRecord {
    pub name: String,
    pub start_line: usize,
    pub end_line: usize,
}

/// The abstract value of a [`SymbolRecord`].
pub struct SymbolRecordView {
    pub name: Seq<char>,
    pub start_line: int,
    pub end_line: int,
}

impl View for SymbolRecord {
    type V = SymbolRecordView;

    open spec fn view(&self) -> SymbolRecordView {
        SymbolRecordView {
            name: self.name@,
            start_line: self.start_line as int,
            end_line: self.end_line as int,
        }
    }
}

/// The abstract values of a symbol list.
pub open spec fn symbol_views(s: Seq<SymbolRecord>) -> Seq<SymbolRecordView> {
    s.map_values(|x: SymbolRecord| x@)
}

/// One discovered file: its path, its text as lines, and its function
/// symbols.
#[derive(Debug)]
pub struct FileRecord {
    pub path: String,
    pub lines: Vec<String>,
    pub symbols: Vec<SymbolRecord>,
}

/// The abstract value of a [`FileRecord`].
pub struct FileRecordView {
    pub path: Seq<char>,
    pub lines: Seq<Seq<char>>,
    pub symbols: Seq<SymbolRecordView>,
}

impl View for FileRecord {
    type V = FileRecordView;

    open spec fn view(&self) -> FileRecordView {
        FileRecordView {
            path: self.path@,
            lines: seq_views(self.lines@),
            symbols: symbol_views(self.symbols@),
        }
    }
}

/// The abstract values of a file list.
pub open spec fn record_views(s: Seq<FileRecord>) -> Seq<FileRecordView> {
    s.map_values(|x: FileRecord| x@)
}

/// A name with its leading underscores stripped.
pub open spec fn strip_underscores(s: Seq<char>) -> Seq<char>
    decreases s.len(),
{
    if s.len() > 0 && s[0] == '_' {
        strip_underscores(s.drop_first())
    } else {
        s
    }
}

/// Stripping underscores skips exactly the leading run of them.
proof fn lemma_strip_underscores(s: Seq<char>, i: int)
    requires
        0 <= i <= s.len(),
        forall|j: int| 0 <= j < i ==> s[j] == '_',
        i == s.len() || s[i] != '_',
    ensures
        strip_underscores(s) == s.skip(i),
    decreases i,
{
    if i == 0 {
        assert(s.skip(0) =~= s);
    } else {
        assert(s[0] == '_');
        lemma_strip_underscores(s.drop_first(), i - 1);
        assert(s.drop_first().skip(i - 1) =~= s.skip(i));
    }
}

/// Normalizes a symbol name: the leading underscores go.
pub fn normalize_name(name: &str) -> (r: String)
    ensures
        r@ == strip_underscores(name@),
{
    let n = name.unicode_len();
    let mut i: usize = 0;
    loop
        invariant
            0 <= i <= n,
            n == name@.len(),
            forall|j: int| 0 <= j < i ==> name@[j] == '_',
        ensures
            0 <= i <= n,
            forall|j: int| 0 <= j < i ==> name@[j] == '_',
            i == n || name@[i as int] != '_',
        decreases n - i,
    {
        if i >= n {
            break;
        }
        if name.get_char(i) != '_' {
            break;
        }
        i = i + 1;
    }
    proof {
        lemma_strip_underscores(name@, i as int);
    }
    String::from_str(name.substring_char(i, n))
}

/// What the discovery pass keeps of one backend listing: the function-kind
/// symbols, names normalized, in order.
pub open spec fn sp_keep_symbols(
    raw: Seq<(Seq<char>, bool, int, int)>,
    acc: Seq<SymbolRecordView>,
) -> Seq<SymbolRecordView>
    decreases raw.len(),
{
    if raw.len() == 0 {
        acc
    } else {
        let acc2 = if raw[0].1 {
            acc.push(
                SymbolRecordView {
                    name: strip_underscores(raw[0].0),
                    start_line: raw[0].2,
                    end_line: raw[0].3,
                },
            )
        } else {
            acc
        };
        sp_keep_symbols(raw.drop_first(), acc2)
    }
}

/// The abstract values of a raw symbol list.
pub open spec fn raw_views(s: Seq<RawSymbol>) -> Seq<(Seq<char>, bool, int, int)> {
    s.map_values(
        |x: RawSymbol| (x.name@, x.is_function, x.start_line as int, x.end_line as int),
    )
}

/// Keeps the function-kind symbols of one backend listing, names
/// normalized, in listing order.
pub fn process_symbols(raw: &Vec<RawSymbol>) -> (r: Vec<SymbolRecord>)
    ensures
        symbol_views(r@) == sp_keep_symbols(raw_views(raw@), Seq::empty()),
{
    let ghost rv = raw_views(raw@);
    let mut out: Vec<SymbolRecord> = Vec::new();
    proof {
        assert(symbol_views(out@) =~= Seq::<SymbolRecordView>::empty());
        assert(rv.skip(0) =~= rv);
    }
    let mut i: usize = 0;
    while i < raw.len()
        invariant
            0 <= i <= raw.len(),
            rv == raw_views(raw@),
            sp_keep_symbols(rv.skip(i as int), symbol_views(out@)) == sp_keep_symbols(
                rv,
                Seq::empty(),
            ),
        decreases raw.len() - i,
    {
        proof {
            assert(rv.skip(i as int)[0] == rv[i as int]);
            assert(rv.skip(i as int).drop_first() =~= rv.skip(i as int + 1));
        }
        if raw[i].is_function {
            let ghost pre = symbol_views(out@);
            out.push(
                SymbolRecord {
                    name: normalize_name(raw[i].name.as_str()),
                    start_line: raw[i].start_line,
                    end_line: raw[i].end_line,
                },
            );
            proof {
                assert(symbol_views(out@) =~= pre.push(
                    SymbolRecordView {
                        name: strip_underscores(rv[i as int].0),
                        start_line: rv[i as int].2,
                        end_line: rv[i as int].3,
                    },
                ));
            }
        }
        i = i + 1;
    }
    proof {
        assert(rv.skip(raw@.len() as int) =~= Seq::<(Seq<char>, bool, int, int)>::empty());
    }
    out
}

/// Whether the pattern followed by an opening parenthesis occurs at `i`.
pub open spec fn sp_call_at(text: Seq<char>, name: Seq<char>, i: int) -> bool {
    &&& 0 <= i
    &&& i + name.len() + 1 <= text.len()
    &&& text.subrange(i, i + name.len()) == name
    &&& text[i + name.len()] == '('
}

/// The call heuristic: the name followed by `(` occurs somewhere in the
/// text.
pub open spec fn sp_has_call(text: Seq<char>, name: Seq<char>) -> bool {
    exists|i: int| sp_call_at(text, name, i)
}

/// Decides the call heuristic for one name against one slice of text.
pub fn contains_call(hay: &str, name: &str) -> (r: bool)
    ensures
        r == sp_has_call(hay@, name@),
{
    let n = hay.unicode_len();
    let m = name.unicode_len();
    if m >= n {
        proof {
            assert forall|i: int| !sp_call_at(hay@, name@, i) by {}
        }
        return false;
    }
    let mut i: usize = 0;
    while i <= n - m - 1
        invariant
            n == hay@.len(),
            m == name@.len(),
            m < n,
            0 <= i <= n - m,
            forall|k: int| 0 <= k < i ==> !sp_call_at(hay@, name@, k),
        decreases n - i,
    {
        let mut j: usize = 0;
        let mut same = true;
        while j < m
            invariant
                n == hay@.len(),
                m == name@.len(),
                0 <= i <= n - m - 1,
                0 <= j <= m,
                same == (forall|k: int| 0 <= k < j ==> hay@[i + k] == name@[k]),
            decreases m - j,
        {
            let c1 = hay.get_char(i + j);
            let c2 = name.get_char(j);
            proof {
                if same && c1 == c2 {
                    assert forall|k: int| 0 <= k < j + 1 implies hay@[i + k] == name@[k] by {}
                } else {
                    assert(!(forall|k: int| 0 <= k < j + 1 ==> hay@[i + k] == name@[k])) by {
                        if !same {
                            let w = choose|k: int| 0 <= k < j && hay@[i + k] != name@[k];
                            assert(hay@[i + w] != name@[w]);
                        } else {
                            assert(hay@[i + j] != name@[j as int]);
                        }
                    }
                }
            }
            same = same && c1 == c2;
            j = j + 1;
        }
        if same && hay.get_char(i + m) == '(' {
            proof {
                assert(hay@.subrange(i as int, i + m) =~= name@);
                assert(sp_call_at(hay@, name@, i as int));
            }
            return true;
        }
        proof {
            assert(!sp_call_at(hay@, name@, i as int)) by {
                if sp_call_at(hay@, name@, i as int) {
                    assert forall|k: int| 0 <= k < m implies hay@[i + k] == name@[k] by {
                        assert(hay@.subrange(i as int, i + m)[k] == name@[k]);
                    }
                }
            }
        }
        i = i + 1;
    }
    proof {
        assert(!sp_has_call(hay@, name@)) by {
            if sp_has_call(hay@, name@) {
                let w = choose|k: int| sp_call_at(hay@, name@, k);
                assert(0 <= w < i);
            }
        }
    }
    false
}

/// The lines of a range, run together without separators, as the heuristic
/// scans them.
pub open spec fn concat_lines(lines: Seq<Seq<char>>, a: int, b: int) -> Seq<char>
    decreases b - a,
{
    if a < b && 0 <= a && b <= lines.len() {
        lines[a] + concat_lines(lines, a + 1, b)
    } else {
        Seq::empty()
    }
}

/// Builds the text slice of a line range.
pub fn slice_lines(lines: &Vec<String>, a: usize, b: usize) -> (r: String)
    requires
        a <= b <= lines@.len(),
    ensures
        r@ == concat_lines(seq_views(lines@), a as int, b as int),
{
    // built back to front, so each step prepends one line
    let mut text = String::new();
    let ghost lv = seq_views(lines@);
    proof {
        assert(text@ =~= Seq::<char>::empty());
    }
    let mut k: usize = b;
    while k > a
        invariant
            a <= k <= b <= lines@.len(),
            lv == seq_views(lines@),
            text@ == concat_lines(lv, k as int, b as int),
        decreases k - a,
    {
        k = k - 1;
        let mut piece = lines[k].clone();
        piece.append(text.as_str());
        text = piece;
        proof {
            assert(text@ == concat_lines(lv, k as int, b as int));
        }
    }
    text
}

/// Whether the persisted cache can be reused: the symbol index is present
/// with exactly one entry per live file, each entry's path is a live file,
/// and both call maps are present.  Presence and entry-count consistency
/// with the live file set are the only staleness checks.
pub open spec fn sp_cache_usable(
    index: Option<Seq<FileSymbolsView>>,
    called: Option<Seq<CallEntryView>>,
    caller: Option<Seq<CallEntryView>>,
    files: Seq<Seq<char>>,
) -> bool {
    &&& index matches Some(im) && im.len() == files.len() && (forall|i: int|
        0 <= i < im.len() ==> files.contains((#[trigger] im[i]).path))
    &&& called is Some
    &&& caller is Some
}

/// The engine's staleness decision over the loaded cache files.
pub fn cache_is_usable(
    index: &Option<Vec<FileSymbols>>,
    called: &Option<Vec<CallEntry>>,
    caller: &Option<Vec<CallEntry>>,
    files: &Vec<String>,
) -> (r: bool)
    ensures
        r == sp_cache_usable(
            match index {
                Some(im) => Some(file_views(im@)),
                None => None,
            },
            match called {
                Some(cd) => Some(entry_views(cd@)),
                None => None,
            },
            match caller {
                Some(cr) => Some(entry_views(cr@)),
                None => None,
            },
            seq_views(files@),
        ),
{
    let index_ok: bool = match index {
        Some(im) => {
            if im.len() != files.len() {
                false
            } else {
                let mut all_in = true;
                let mut i: usize = 0;
                while i < im.len()
                    invariant
                        0 <= i <= im.len(),
                        all_in == (forall|j: int|
                            0 <= j < i ==> seq_views(files@).contains(
                                (#[trigger] file_views(im@)[j]).path,
                            )),
                    decreases im.len() - i,
                {
                    let here = names_contain(files, im[i].path.as_str());
                    proof {
                        assert(file_views(im@)[i as int].path == im@[i as int]@.path);
                        if all_in && here {
                            assert forall|j: int|
                                0 <= j < i + 1 implies seq_views(files@).contains(
                                (#[trigger] file_views(im@)[j]).path,
                            ) by {}
                        } else {
                            assert(!(forall|j: int|
                                0 <= j < i + 1 ==> seq_views(files@).contains(
                                    (#[trigger] file_views(im@)[j]).path,
                                ))) by {
                                if !all_in {
                                    let w = choose|j: int|
                                        0 <= j < i && !seq_views(files@).contains(
                                            (#[trigger] file_views(im@)[j]).path,
                                        );
                                    assert(!seq_views(files@).contains(file_views(im@)[w].path));
                                } else {
                                    assert(!seq_views(files@).contains(
                                        file_views(im@)[i as int].path,
                                    ));
                                }
                            }
                        }
                    }
                    all_in = all_in && here;
                    i = i + 1;
                }
                all_in
            }
        },
        None => false,
    };
    let called_ok: bool = called.is_some();
    let caller_ok: bool = caller.is_some();
    index_ok && called_ok && caller_ok
}

/// A persisted index written by a completed run over an unchanged file set
/// passes the staleness check, so a second run reuses the persisted maps
/// verbatim and never re-enters the discovery pass.
pub proof fn lemma_index_reuse(
    index: Seq<FileSymbolsView>,
    called: Seq<CallEntryView>,
    caller: Seq<CallEntryView>,
    files: Seq<Seq<char>>,
)
    requires
        index.len() == files.len(),
        forall|i: int| 0 <= i < index.len() ==> files.contains((#[trigger] index[i]).path),
    ensures
        sp_cache_usable(Some(index), Some(called), Some(caller), files),
{
}

/// The discovery pass's cursor: which file is next, how many were indexed
/// since the last backend restart, and whether the current file is being
/// retried after a failure.
#[derive(Debug, Clone, Copy, PartialEq, Eq, Structural)]
pub struct IndexerState {
    pub total: usize,
    pub next_file: usize,
    pub since_restart: usize,
    pub retrying: bool,
}

/// What the driver should do next.
#[derive(Debug, Clone, Copy, PartialEq, Eq, Structural)]
pub enum IndexerAction {
    Fetch { file: usize, restart_first: bool },
    Done,
}

/// What became of one fetch.
#[derive(Debug, Clone, Copy, PartialEq, Eq, Structural)]
pub enum FetchDisposition {
    Record,
    RetryAfterRestart,
    GiveUpEmpty,
}

impl IndexerState {
    /// The state's invariant: the cursor stays within the file set and the
    /// batch counter within the batch.
    pub open spec fn wf(&self) -> bool {
        self.next_file <= self.total && self.since_restart <= INDEX_BATCH
    }

    /// A discovery pass over this many files, healthy and at its start.
    pub fn start(total: usize) -> (r: IndexerState)
        ensures
            r == (IndexerState { total, next_file: 0, since_restart: 0, retrying: false }),
            r.wf(),
    {
        IndexerState { total, next_file: 0, since_restart: 0, retrying: false }
    }

    /// What to do now: fetch the next file — restarting the degraded backend
    /// first after a failure or a full batch — or stop when every file is
    /// recorded.
    pub fn plan(&self) -> (r: IndexerAction)
        requires
            self.wf(),
        ensures
            r == (if self.next_file >= self.total {
                IndexerAction::Done
            } else {
                IndexerAction::Fetch {
                    file: self.next_file,
                    restart_first: self.retrying || self.since_restart >= INDEX_BATCH,
                }
            }),
    {
        if self.next_file >= self.total {
            IndexerAction::Done
        } else {
            IndexerAction::Fetch {
                file: self.next_file,
                restart_first: self.retrying || self.since_restart >= INDEX_BATCH,
            }
        }
    }

    /// Advances on the outcome of the planned fetch: success records the
    /// file; the first failure asks for a restart and one retry of the same
    /// file; a second failure gives up and records an empty symbol list.
    pub fn advance(&mut self, ok: bool) -> (d: FetchDisposition)
        requires
            old(self).wf(),
            old(self).next_file < old(self).total,
        ensures
            final(self).wf(),
            final(self).total == old(self).total,
            d == (if ok {
                FetchDisposition::Record
            } else if !old(self).retrying {
                FetchDisposition::RetryAfterRestart
            } else {
                FetchDisposition::GiveUpEmpty
            }),
            // the file advances exactly when the fetch is not retried
            final(self).next_file == (if ok || old(self).retrying {
                old(self).next_file + 1
            } else {
                old(self).next_file as int
            }),
            // a file is retried at most once
            final(self).retrying == (!ok && !old(self).retrying),
            // the batch counter restarts whenever the backend was restarted
            final(self).since_restart == (if ok || old(self).retrying {
                if old(self).retrying || old(self).since_restart >= INDEX_BATCH {
                    1int
                } else {
                    old(self).since_restart + 1
                }
            } else {
                old(self).since_restart as int
            }),
    {
        if ok {
            let restarted = self.retrying || self.since_restart >= INDEX_BATCH;
            self.next_file = self.next_file + 1;
            self.since_restart = if restarted {
                1
            } else {
                self.since_restart + 1
            };
            self.retrying = false;
            FetchDisposition::Record
        } else if !self.retrying {
            self.retrying = true;
            FetchDisposition::RetryAfterRestart
        } else {
            self.next_file = self.next_file + 1;
            self.since_restart = 1;
            self.retrying = false;
            FetchDisposition::GiveUpEmpty
        }
    }
}


/// The map with `val` appended to the first entry keyed `key`, or with a new
/// entry at the end if there is none.
pub open spec fn sp_append_entry(
    entries: Seq<CallEntryView>,
    key: Seq<char>,
    val: Seq<char>,
) -> Seq<CallEntryView>
    decreases entries.len(),
{
    if entries.len() == 0 {
        seq![CallEntryView { key, values: seq![val] }]
    } else if entries[0].key == key {
        seq![CallEntryView { key: entries[0].key, values: entries[0].values.push(val) }]
            + entries.drop_first()
    } else {
        seq![entries[0]] + sp_append_entry(entries.drop_first(), key, val)
    }
}

/// The map with the first entry keyed `key` replaced by `values`, or with a
/// new entry at the end if there is none.
pub open spec fn sp_replace_entry(
    entries: Seq<CallEntryView>,
    key: Seq<char>,
    values: Seq<Seq<char>>,
) -> Seq<CallEntryView>
    decreases entries.len(),
{
    if entries.len() == 0 {
        seq![CallEntryView { key, values }]
    } else if entries[0].key == key {
        seq![CallEntryView { key: entries[0].key, values }] + entries.drop_first()
    } else {
        seq![entries[0]] + sp_replace_entry(entries.drop_first(), key, values)
    }
}

/// Appending lands at the first matching index.
proof fn lemma_append_entry_at(entries: Seq<CallEntryView>, key: Seq<char>, val: Seq<char>, i: int)
    requires
        0 <= i < entries.len(),
        entries[i].key == key,
        forall|j: int| 0 <= j < i ==> (#[trigger] entries[j]).key != key,
    ensures
        sp_append_entry(entries, key, val) =~= entries.update(
            i,
            CallEntryView { key: entries[i].key, values: entries[i].values.push(val) },
        ),
    decreases i,
{
    if i > 0 {
        lemma_append_entry_at(entries.drop_first(), key, val, i - 1);
        assert(entries.drop_first().update(
            i - 1,
            CallEntryView {
                key: entries[i].key,
                values: entries[i].values.push(val),
            },
        ) =~= entries.update(
            i,
            CallEntryView { key: entries[i].key, values: entries[i].values.push(val) },
        ).drop_first());
    }
}

/// Appending with an absent key adds a new entry at the end.
proof fn lemma_append_entry_missing(entries: Seq<CallEntryView>, key: Seq<char>, val: Seq<char>)
    requires
        forall|j: int| 0 <= j < entries.len() ==> (#[trigger] entries[j]).key != key,
    ensures
        sp_append_entry(entries, key, val) =~= entries.push(
            CallEntryView { key, values: seq![val] },
        ),
    decreases entries.len(),
{
    if entries.len() > 0 {
        lemma_append_entry_missing(entries.drop_first(), key, val);
    }
}

/// Replacing lands at the first matching index.
proof fn lemma_replace_entry_at(
    entries: Seq<CallEntryView>,
    key: Seq<char>,
    values: Seq<Seq<char>>,
    i: int,
)
    requires
        0 <= i < entries.len(),
        entries[i].key == key,
        forall|j: int| 0 <= j < i ==> (#[trigger] entries[j]).key != key,
    ensures
        sp_replace_entry(entries, key, values) =~= entries.update(
            i,
            CallEntryView { key: entries[i].key, values },
        ),
    decreases i,
{
    if i > 0 {
        lemma_replace_entry_at(entries.drop_first(), key, values, i - 1);
        assert(entries.drop_first().update(
            i - 1,
            CallEntryView { key: entries[i].key, values },
        ) =~= entries.update(i, CallEntryView { key: entries[i].key, values }).drop_first());
    }
}

/// Replacing with an absent key adds a new entry at the end.
proof fn lemma_replace_entry_missing(
    entries: Seq<CallEntryView>,
    key: Seq<char>,
    values: Seq<Seq<char>>,
)
    requires
        forall|j: int| 0 <= j < entries.len() ==> (#[trigger] entries[j]).key != key,
    ensures
        sp_replace_entry(entries, key, values) =~= entries.push(CallEntryView { key, values }),
    decreases entries.len(),
{
    if entries.len() > 0 {
        lemma_replace_entry_missing(entries.drop_first(), key, values);
    }
}

/// The index of the first entry with this key, if any.
fn find_entry(entries: &Vec<CallEntry>, key: &str) -> (r: Option<usize>)
    ensures
        match r {
            Some(i) => {
                &&& i < entries@.len()
                &&& entry_views(entries@)[i as int].key == key@
                &&& forall|j: int|
                    0 <= j < i ==> (#[trigger] entry_views(entries@)[j]).key != key@
            },
            None => forall|j: int|
                0 <= j < entries@.len() ==> (#[trigger] entry_views(entries@)[j]).key != key@,
        },
{
    let mut i: usize = 0;
    while i < entries.len()
        invariant
            0 <= i <= entries.len(),
            forall|j: int| 0 <= j < i ==> (#[trigger] entry_views(entries@)[j]).key != key@,
        decreases entries.len() - i,
    {
        if str_eq(entries[i].key.as_str(), key) {
            return Some(i);
        }
        i = i + 1;
    }
    None
}

/// Appends `val` to the entry keyed `key`, creating the entry if needed.
fn append_entry(entries: &mut Vec<CallEntry>, key: &str, val: String)
    ensures
        entry_views(final(entries)@) == sp_append_entry(entry_views(old(entries)@), key@, val@),
{
    let ghost before = entry_views(entries@);
    match find_entry(entries, key) {
        Some(i) => {
            let mut values = crate::text::clone_strings(&entries[i].values);
            let ghost base_vals = seq_views(values@);
            let ghost val_v = val@;
            values.push(val);
            proof {
                assert(seq_views(values@) =~= base_vals.push(val_v));
            }
            let entry_key = entries[i].key.clone();
            let ghost new_vals = seq_views(values@);
            entries[i] = CallEntry { key: entry_key, values };
            proof {
                lemma_append_entry_at(before, key@, val_v, i as int);
                assert(entry_views(entries@)[i as int].values == new_vals);
                assert(entry_views(entries@) =~= before.update(
                    i as int,
                    CallEntryView {
                        key: before[i as int].key,
                        values: before[i as int].values.push(val_v),
                    },
                ));
            }
        },
        None => {
            let ghost val_v = val@;
            let vals: Vec<String> = vec![val];
            proof {
                assert(seq_views(vals@) =~= seq![val_v]);
            }
            entries.push(CallEntry { key: String::from_str(key), values: vals });
            proof {
                lemma_append_entry_missing(before, key@, val_v);
                assert(entry_views(entries@) =~= before.push(
                    CallEntryView { key: key@, values: seq![val_v] },
                ));
            }
        },
    }
}


/// Replaces the values of the entry keyed `key`, creating the entry if
/// needed.
fn replace_entry(entries: &mut Vec<CallEntry>, key: String, values: Vec<String>)
    ensures
        entry_views(final(entries)@) == sp_replace_entry(
            entry_views(old(entries)@),
            key@,
            seq_views(values@),
        ),
{
    let ghost before = entry_views(entries@);
    match find_entry(entries, key.as_str()) {
        Some(i) => {
            let entry_key = entries[i].key.clone();
            let ghost vv = seq_views(values@);
            entries[i] = CallEntry { key: entry_key, values };
            proof {
                lemma_replace_entry_at(before, key@, vv, i as int);
                assert(entry_views(entries@) =~= before.update(
                    i as int,
                    CallEntryView { key: before[i as int].key, values: vv },
                ));
            }
        },
        None => {
            let ghost vv = seq_views(values@);
            entries.push(CallEntry { key, values });
            proof {
                lemma_replace_entry_missing(before, key@, vv);
                assert(entry_views(entries@) =~= before.push(
                    CallEntryView { key: key@, values: vv },
                ));
            }
        },
    }
}

/// The names a file's symbols carry, in order.
pub open spec fn sp_file_names(f: FileRecordView) -> Seq<Seq<char>> {
    f.symbols.map_values(|s: SymbolRecordView| s.name)
}

/// One caller's slice scanned against the names of one file: every name the
/// heuristic finds is appended to the callee list (repeats included, as the
/// scan revisits names), and the caller is recorded under that name in the
/// inverse map.
pub open spec fn sp_scan_names(
    slice: Seq<char>,
    caller: Seq<char>,
    names: Seq<Seq<char>>,
    called: Seq<Seq<char>>,
    inv: Seq<CallEntryView>,
) -> (Seq<Seq<char>>, Seq<CallEntryView>)
    decreases names.len(),
{
    if names.len() == 0 {
        (called, inv)
    } else {
        if sp_has_call(slice, names[0]) {
            sp_scan_names(
                slice,
                caller,
                names.drop_first(),
                called.push(names[0]),
                sp_append_entry(inv, names[0], caller),
            )
        } else {
            sp_scan_names(slice, caller, names.drop_first(), called, inv)
        }
    }
}

/// One caller's slice scanned against every file's names.
pub open spec fn sp_scan_files(
    slice: Seq<char>,
    caller: Seq<char>,
    files: Seq<FileRecordView>,
    called: Seq<Seq<char>>,
    inv: Seq<CallEntryView>,
) -> (Seq<Seq<char>>, Seq<CallEntryView>)
    decreases files.len(),
{
    if files.len() == 0 {
        (called, inv)
    } else {
        let r = sp_scan_names(slice, caller, sp_file_names(files[0]), called, inv);
        sp_scan_files(slice, caller, files.drop_first(), r.0, r.1)
    }
}

/// The slice of text the heuristic reads for a symbol: the lines strictly
/// between its first and last line, or nothing when the range is degenerate
/// or runs past the file.
pub open spec fn sp_symbol_slice(lines: Seq<Seq<char>>, sym: SymbolRecordView) -> Seq<char> {
    if sym.start_line + 1 < sym.end_line && sym.end_line <= lines.len() {
        concat_lines(lines, sym.start_line + 1, sym.end_line)
    } else {
        Seq::empty()
    }
}

/// One symbol of one file: its slice is scanned against every known name;
/// its callee list replaces any earlier entry under the same name.
pub open spec fn sp_build_symbol(
    lines: Seq<Seq<char>>,
    sym: SymbolRecordView,
    all: Seq<FileRecordView>,
    fwd: Seq<CallEntryView>,
    inv: Seq<CallEntryView>,
) -> (Seq<CallEntryView>, Seq<CallEntryView>) {
    let slice = sp_symbol_slice(lines, sym);
    let r = sp_scan_files(slice, sym.name, all, Seq::empty(), inv);
    (sp_replace_entry(fwd, sym.name, r.0), r.1)
}

/// Every symbol of one file, in order.
pub open spec fn sp_build_symbols(
    lines: Seq<Seq<char>>,
    syms: Seq<SymbolRecordView>,
    all: Seq<FileRecordView>,
    fwd: Seq<CallEntryView>,
    inv: Seq<CallEntryView>,
) -> (Seq<CallEntryView>, Seq<CallEntryView>)
    decreases syms.len(),
{
    if syms.len() == 0 {
        (fwd, inv)
    } else {
        let r = sp_build_symbol(lines, syms[0], all, fwd, inv);
        sp_build_symbols(lines, syms.drop_first(), all, r.0, r.1)
    }
}

/// Every file, in order.
pub open spec fn sp_build_files(
    files: Seq<FileRecordView>,
    all: Seq<FileRecordView>,
    fwd: Seq<CallEntryView>,
    inv: Seq<CallEntryView>,
) -> (Seq<CallEntryView>, Seq<CallEntryView>)
    decreases files.len(),
{
    if files.len() == 0 {
        (fwd, inv)
    } else {
        let r = sp_build_symbols(files[0].lines, files[0].symbols, all, fwd, inv);
        sp_build_files(files.drop_first(), all, r.0, r.1)
    }
}

/// What the relationship pass computes from the discovered files: the
/// caller-to-callees map and the callee-to-callers map of the textual
/// heuristic.
pub open spec fn sp_build_call_index(files: Seq<FileRecordView>) -> (
    Seq<CallEntryView>,
    Seq<CallEntryView>,
) {
    sp_build_files(files, files, Seq::empty(), Seq::empty())
}

/// Builds the two call-index maps from the discovered files: for every
/// symbol, the text between its first and last line is scanned for
/// `name(` for every known symbol name; each hit records a caller-to-callee
/// relation in the forward map and its mirror in the inverse map.
pub fn build_call_index(files: &Vec<FileRecord>) -> (r: (Vec<CallEntry>, Vec<CallEntry>))
    ensures
        (entry_views(r.0@), entry_views(r.1@)) == sp_build_call_index(record_views(files@)),
{
    let ghost all = record_views(files@);
    let mut fwd: Vec<CallEntry> = Vec::new();
    let mut inv: Vec<CallEntry> = Vec::new();
    proof {
        assert(entry_views(fwd@) =~= Seq::<CallEntryView>::empty());
        assert(entry_views(inv@) =~= Seq::<CallEntryView>::empty());
        assert(all.skip(0) =~= all);
    }
    let mut fi: usize = 0;
    while fi < files.len()
        invariant
            0 <= fi <= files.len(),
            all == record_views(files@),
            sp_build_files(all.skip(fi as int), all, entry_views(fwd@), entry_views(inv@))
                == sp_build_call_index(all),
        decreases files.len() - fi,
    {
        proof {
            assert(all.skip(fi as int)[0] == all[fi as int]);
            assert(all.skip(fi as int).drop_first() =~= all.skip(fi as int + 1));
        }
        let file = &files[fi];
        let ghost syms = all[fi as int].symbols;
        proof {
            assert(syms.skip(0) =~= syms);
        }
        let mut si: usize = 0;
        while si < file.symbols.len()
            invariant
                0 <= si <= file.symbols.len(),
                fi < files.len(),
                all == record_views(files@),
                file == &files@[fi as int],
                syms == all[fi as int].symbols,
                syms.len() == file.symbols@.len(),
                ({
                    let r = sp_build_symbols(
                        all[fi as int].lines,
                        syms.skip(si as int),
                        all,
                        entry_views(fwd@),
                        entry_views(inv@),
                    );
                    sp_build_files(all.skip(fi as int + 1), all, r.0, r.1)
                        == sp_build_call_index(all)
                }),
            decreases file.symbols.len() - si,
        {
            proof {
                assert(syms.skip(si as int)[0] == syms[si as int]);
                assert(syms.skip(si as int).drop_first() =~= syms.skip(si as int + 1));
                assert(syms[si as int] == file.symbols@[si as int]@);
            }
            let sym = &file.symbols[si];
            // the slice the heuristic reads
            let degenerate = sym.end_line < 1 || sym.start_line >= sym.end_line - 1 || sym.end_line
                > file.lines.len();
            let slice: String = if !degenerate {
                slice_lines(&file.lines, sym.start_line + 1, sym.end_line)
            } else {
                String::new()
            };
            proof {
                assert(slice@ == sp_symbol_slice(all[fi as int].lines, syms[si as int]));
            }
            // scan every file's names against the slice
            let ghost fwd_pre = entry_views(fwd@);
            let caller_name = file.symbols[si].name.clone();
            let ghost caller_v = syms[si as int].name;
            let ghost slice_v = slice@;
            let ghost inv0 = entry_views(inv@);
            let mut called: Vec<String> = Vec::new();
            proof {
                assert(seq_views(called@) =~= Seq::<Seq<char>>::empty());
                assert(all.skip(0) =~= all);
            }
            let ghost scan_target = sp_scan_files(slice_v, caller_v, all, Seq::empty(), inv0);
            let mut oi: usize = 0;
            while oi < files.len()
                invariant
                    0 <= oi <= files.len(),
                    all == record_views(files@),
                    caller_name@ == caller_v,
                    slice@ == slice_v,
                    sp_scan_files(
                        slice_v,
                        caller_v,
                        all.skip(oi as int),
                        seq_views(called@),
                        entry_views(inv@),
                    ) == scan_target,
                decreases files.len() - oi,
            {
                proof {
                    assert(all.skip(oi as int)[0] == all[oi as int]);
                    assert(all.skip(oi as int).drop_first() =~= all.skip(oi as int + 1));
                }
                let ghost onames = sp_file_names(all[oi as int]);
                proof {
                    assert(onames.skip(0) =~= onames);
                }
                let other = &files[oi];
                let mut ni: usize = 0;
                while ni < other.symbols.len()
                    invariant
                        0 <= ni <= other.symbols.len(),
                        oi < files.len(),
                        all == record_views(files@),
                        other == &files@[oi as int],
                        onames == sp_file_names(all[oi as int]),
                        onames.len() == other.symbols@.len(),
                        caller_name@ == caller_v,
                        slice@ == slice_v,
                        ({
                            let r = sp_scan_names(
                                slice_v,
                                caller_v,
                                onames.skip(ni as int),
                                seq_views(called@),
                                entry_views(inv@),
                            );
                            sp_scan_files(slice_v, caller_v, all.skip(oi as int + 1), r.0, r.1)
                                == scan_target
                        }),
                    decreases other.symbols.len() - ni,
                {
                    proof {
                        assert(onames.skip(ni as int)[0] == onames[ni as int]);
                        assert(onames.skip(ni as int).drop_first() =~= onames.skip(ni as int + 1));
                        assert(onames[ni as int] == all[oi as int].symbols[ni as int].name);
                        assert(all[oi as int].symbols[ni as int]
                            == other.symbols@[ni as int]@);
                    }
                    let nm = &other.symbols[ni].name;
                    if contains_call(slice.as_str(), nm.as_str()) {
                        let ghost called_pre = seq_views(called@);
                        called.push(nm.clone());
                        append_entry(&mut inv, nm.as_str(), caller_name.clone());
                        proof {
                            assert(seq_views(called@) =~= called_pre.push(onames[ni as int]));
                        }
                    }
                    ni = ni + 1;
                }
                proof {
                    assert(onames.skip(other.symbols@.len() as int) =~= Seq::<Seq<char>>::empty());
                }
                oi = oi + 1;
            }
            proof {
                assert(all.skip(files@.len() as int) =~= Seq::<FileRecordView>::empty());
            }
            // this symbol's callee list replaces any earlier one
            let ghost called_final = seq_views(called@);
            replace_entry(&mut fwd, caller_name, called);
            proof {
                assert(entry_views(fwd@) == sp_replace_entry(fwd_pre, caller_v, called_final));
                assert((entry_views(fwd@), entry_views(inv@)) == sp_build_symbol(
                    all[fi as int].lines,
                    syms[si as int],
                    all,
                    fwd_pre,
                    inv0,
                ));
            }
            si = si + 1;
        }
        fi = fi + 1;
    }
    proof {
        assert(all.skip(files@.len() as int) =~= Seq::<FileRecordView>::empty());
    }
    (fwd, inv)
}


/// How many characters before the first `c` (or the end) from `i` on.
pub open spec fn until_char(s: Seq<char>, i: int, c: char) -> nat
    decreases s.len() - i,
{
    if 0 <= i < s.len() && s[i] != c {
        1 + until_char(s, i + 1, c)
    } else {
        0
    }
}

/// The position of the first `c` at or after `i`, or the end of the text.
pub open spec fn sp_first_of(s: Seq<char>, i: int, c: char) -> int {
    i + until_char(s, i, c)
}

/// `sp_first_of` is characterized by what stands before and at it.
proof fn lemma_first_of(s: Seq<char>, i: int, c: char, k: int)
    requires
        0 <= i <= k <= s.len(),
        forall|j: int| i <= j < k ==> s[j] != c,
        k == s.len() || s[k] == c,
    ensures
        sp_first_of(s, i, c) == k,
    decreases k - i,
{
    if i < k {
        lemma_first_of(s, i + 1, c, k);
    }
}

/// What stands after the last path separator.
pub open spec fn sp_basename(s: Seq<char>) -> Seq<char>
    decreases s.len(),
{
    let f = sp_first_of(s, 0, '/');
    if f < s.len() {
        sp_basename(s.skip(f + 1))
    } else {
        s
    }
}

/// A text without separators is its own basename.
proof fn lemma_basename_plain(s: Seq<char>)
    requires
        forall|j: int| 0 <= j < s.len() ==> s[j] != '/',
    ensures
        sp_basename(s) == s,
{
    lemma_first_of(s, 0, '/', s.len() as int);
}

/// The basename is what follows the last separator.
proof fn lemma_basename_at(s: Seq<char>, i: int)
    requires
        0 <= i < s.len(),
        s[i] == '/',
        forall|j: int| i < j < s.len() ==> s[j] != '/',
    ensures
        sp_basename(s) == s.skip(i + 1),
    decreases s.len(),
{
    let f = sp_first_of(s, 0, '/');
    assert(0 <= f <= s.len()) by {
        lemma_until_bound(s, 0, '/');
    }
    assert(f < s.len() && s[f] == '/') by {
        lemma_until_hits(s, 0, '/');
        if f > i {
            assert(s[i] != '/');
        }
    }
    if f == i {
        lemma_basename_plain(s.skip(f + 1));
        assert(s.skip(f + 1) =~= s.skip(i + 1));
    } else {
        assert(f < i);
        lemma_basename_at(s.skip(f + 1), i - f - 1);
        assert(s.skip(f + 1).skip(i - f) =~= s.skip(i + 1));
    }
}

/// The scan never passes the end.
proof fn lemma_until_bound(s: Seq<char>, i: int, c: char)
    requires
        0 <= i <= s.len(),
    ensures
        i <= sp_first_of(s, i, c) <= s.len(),
    decreases s.len() - i,
{
    if i < s.len() && s[i] != c {
        lemma_until_bound(s, i + 1, c);
    }
}

/// The scan stops only at `c` or at the end, and skips no `c`.
proof fn lemma_until_hits(s: Seq<char>, i: int, c: char)
    requires
        0 <= i <= s.len(),
    ensures
        sp_first_of(s, i, c) == s.len() || s[sp_first_of(s, i, c)] == c,
        forall|j: int| i <= j < sp_first_of(s, i, c) ==> s[j] != c,
    decreases s.len() - i,
{
    lemma_until_bound(s, i, c);
    if i < s.len() && s[i] != c {
        lemma_until_hits(s, i + 1, c);
    }
}

/// Whether the text ends in the suffix.
pub open spec fn sp_ends_with(s: Seq<char>, suffix: Seq<char>) -> bool {
    s.len() >= suffix.len() && s.skip(s.len() - suffix.len()) == suffix
}

/// Whether a path names a source file the index covers: it must end in
/// `.c` or `.cpp`, and, when the backend's index names are known, its stem
/// (basename up to the first dot, which must exist) must be one of them.
pub open spec fn sp_keep_file(s: Seq<char>, names: Option<Seq<Seq<char>>>) -> bool {
    &&& sp_ends_with(s, ".c"@) || sp_ends_with(s, ".cpp"@)
    &&& match names {
        Some(ns) => {
            let b = sp_basename(s);
            let d = sp_first_of(b, 0, '.');
            d < b.len() && ns.contains(b.take(d))
        },
        None => true,
    }
}

/// The paths that pass [`sp_keep_file`], in order.
pub open spec fn sp_select_files(
    paths: Seq<Seq<char>>,
    names: Option<Seq<Seq<char>>>,
    acc: Seq<Seq<char>>,
) -> Seq<Seq<char>>
    decreases paths.len(),
{
    if paths.len() == 0 {
        acc
    } else {
        let acc2 = if sp_keep_file(paths[0], names) {
            acc.push(paths[0])
        } else {
            acc
        };
        sp_select_files(paths.drop_first(), names, acc2)
    }
}

/// Whether the path ends in the given short ASCII suffix.
fn ends_with_str(path: &str, suffix: &str) -> (r: bool)
    ensures
        r == sp_ends_with(path@, suffix@),
{
    let n = path.unicode_len();
    let m = suffix.unicode_len();
    if n < m {
        return false;
    }
    let mut j: usize = 0;
    while j < m
        invariant
            n == path@.len(),
            m == suffix@.len(),
            m <= n,
            0 <= j <= m,
            forall|k: int| 0 <= k < j ==> path@[n - m + k] == suffix@[k],
        decreases m - j,
    {
        if path.get_char(n - m + j) != suffix.get_char(j) {
            proof {
                assert(path@.skip(n - m)[j as int] != suffix@[j as int]);
            }
            return false;
        }
        j = j + 1;
    }
    proof {
        assert(path@.skip(n - m) =~= suffix@);
    }
    true
}

/// Decides [`sp_keep_file`] for one path.
pub fn keep_source_file(path: &str, index_names: &Option<Vec<String>>) -> (r: bool)
    ensures
        r == sp_keep_file(
            path@,
            match index_names {
                Some(ns) => Some(seq_views(ns@)),
                None => None,
            },
        ),
{
    let is_source = ends_with_str(path, ".c") || ends_with_str(path, ".cpp");
    if !is_source {
        return false;
    }
    match index_names {
        None => true,
        Some(ns) => {
            let n = path.unicode_len();
            // the basename starts after the last separator
            let mut base: usize = 0;
            let mut i: usize = 0;
            while i < n
                invariant
                    n == path@.len(),
                    0 <= base <= i <= n,
                    base == 0 || path@[base - 1] == '/',
                    forall|j: int| base <= j < i ==> path@[j] != '/',
                decreases n - i,
            {
                if path.get_char(i) == '/' {
                    base = i + 1;
                }
                i = i + 1;
            }
            proof {
                if base == 0 {
                    lemma_basename_plain(path@);
                    assert(path@.skip(0) =~= path@);
                } else {
                    lemma_basename_at(path@, base - 1);
                }
            }
            let ghost b = sp_basename(path@);
            proof {
                assert(b == path@.skip(base as int));
            }
            // the stem runs to the first dot of the basename
            let mut d: usize = base;
            loop
                invariant
                    n == path@.len(),
                    base <= d <= n,
                    forall|j: int| base <= j < d ==> path@[j] != '.',
                ensures
                    base <= d <= n,
                    forall|j: int| base <= j < d ==> path@[j] != '.',
                    d == n || path@[d as int] == '.',
                decreases n - d,
            {
                if d >= n {
                    break;
                }
                if path.get_char(d) == '.' {
                    break;
                }
                d = d + 1;
            }
            proof {
                assert forall|j: int| 0 <= j < d - base implies b[j] != '.' by {
                    assert(b[j] == path@[base + j]);
                }
                lemma_first_of(b, 0, '.', d - base);
            }
            if d >= n {
                proof {
                    assert(sp_first_of(b, 0, '.') == b.len());
                }
                false
            } else {
                let stem = path.substring_char(base, d);
                proof {
                    assert(stem@ =~= b.take(d - base));
                }
                names_contain(ns, stem)
            }
        },
    }
}

/// Keeps the paths of source files the index covers, in order.
pub fn select_source_files(paths: &Vec<String>, index_names: &Option<Vec<String>>) -> (r: Vec<
    String,
>)
    ensures
        seq_views(r@) == sp_select_files(
            seq_views(paths@),
            match index_names {
                Some(ns) => Some(seq_views(ns@)),
                None => None,
            },
            Seq::empty(),
        ),
{
    let ghost pv = seq_views(paths@);
    let ghost nv = match index_names {
        Some(ns) => Some(seq_views(ns@)),
        None => None,
    };
    let mut out: Vec<String> = Vec::new();
    proof {
        assert(seq_views(out@) =~= Seq::<Seq<char>>::empty());
        assert(pv.skip(0) =~= pv);
    }
    let mut i: usize = 0;
    while i < paths.len()
        invariant
            0 <= i <= paths.len(),
            pv == seq_views(paths@),
            nv == (match index_names {
                Some(ns) => Some(seq_views(ns@)),
                None => None,
            }),
            sp_select_files(pv.skip(i as int), nv, seq_views(out@)) == sp_select_files(
                pv,
                nv,
                Seq::empty(),
            ),
        decreases paths.len() - i,
    {
        proof {
            assert(pv.skip(i as int)[0] == pv[i as int]);
            assert(pv.skip(i as int).drop_first() =~= pv.skip(i as int + 1));
        }
        if keep_source_file(paths[i].as_str(), index_names) {
            let ghost pre = seq_views(out@);
            out.push(paths[i].clone());
            proof {
                assert(seq_views(out@) =~= pre.push(pv[i as int]));
            }
        }
        i = i + 1;
    }
    proof {
        assert(pv.skip(paths@.len() as int) =~= Seq::<Seq<char>>::empty());
    }
    out
}

/// Loads the persisted maps into a search engine when the staleness check
/// passes: the reused maps are exactly the persisted ones, so a second run
/// over an unchanged file set answers from the very same index.
pub fn load_index(
    index: Option<Vec<FileSymbols>>,
    called: Option<Vec<CallEntry>>,
    caller: Option<Vec<CallEntry>>,
    files: &Vec<String>,
) -> (r: Option<ClangdServer>)
    ensures
        (r is Some) == sp_cache_usable(
            match index {
                Some(im) => Some(file_views(im@)),
                None => None,
            },
            match called {
                Some(cd) => Some(entry_views(cd@)),
                None => None,
            },
            match caller {
                Some(cr) => Some(entry_views(cr@)),
                None => None,
            },
            seq_views(files@),
        ),
        r matches Some(s) ==> index matches Some(im) && s.index_map@ == im@,
        r matches Some(s) ==> called matches Some(cd) && s.function_index@ == cd@,
        r matches Some(s) ==> caller matches Some(cr) && s.inv_function_index@ == cr@,
{
    let usable = cache_is_usable(&index, &called, &caller, files);
    if usable {
        match (index, called, caller) {
            (Some(im), Some(cd), Some(cr)) => Some(ClangdServer::new(im, cd, cr)),
            _ => None,
        }
    } else {
        None
    }
}

} // verus!
