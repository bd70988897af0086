//! The debug-information resolver: an immutable index built once per load,
//! mapping instruction addresses to file/line pairs and function names to
//! their post-prologue entry addresses.

use vstd::prelude::*;
use crate::error::EngineError;

verus! {

/// One entry of the line table: the instruction at `address` belongs to
/// source line `line` of file `file` (an index into the file-name table).
#[derive(Clone, Copy, Debug)]
pub struct LineRow {
    pub address: u64,
    pub file: u32,
    pub line: u32,
}

/// One function symbol. `entry` is the raw entry point, `post_prologue` the
/// first address after stack-frame setup, and `end` the first address past
/// the function's body.
#[derive(Clone, Debug)]
pub struct FuncSym {
    pub name: String,
    pub entry: u64,
    pub post_prologue: u64,
    pub end: u64,
}

/// The shared currency between source-facing commands and address-facing
/// mechanics: a file/line pair together with its instruction address.
#[derive(Clone, Copy, Debug)]
pub struct Location {
    pub file: u32,
    pub line: u32,
    pub address: u64,
}

/// The read-only debug-information index. Never mutated after construction.
pub struct DebugInfo {
    pub files: Vec<String>,
    pub rows: Vec<LineRow>,
    pub funcs: Vec<FuncSym>,
}

/// No two line-table rows describe the same address.
pub open spec fn rows_unique(rows: Seq<LineRow>) -> bool {
    forall|i: int, j: int|
        0 <= i < rows.len() && 0 <= j < rows.len() && i != j ==> rows[i].address
            != rows[j].address
}

/// A row of `rows` can serve a request for `line` of file `file`: it lies in
/// that file at or after the requested line.
pub open spec fn row_serves(row: LineRow, file: u32, line: u32) -> bool {
    row.file == file && row.line >= line
}

/// `rows[i]` is the best answer for `file:line`: it serves the request, and
/// no other serving row has a smaller line, nor the same line at a smaller
/// address.
pub open spec fn row_is_best(rows: Seq<LineRow>, file: u32, line: u32, i: int) -> bool {
    &&& 0 <= i < rows.len()
    &&& row_serves(rows[i], file, line)
    &&& forall|j: int|
        0 <= j < rows.len() && row_serves(#[trigger] rows[j], file, line) ==> rows[i].line
            < rows[j].line || (rows[i].line == rows[j].line && rows[i].address <= rows[j].address)
}

/// `files[f]` is the first file of the table whose name is `name`.
pub open spec fn is_first_file(files: Seq<String>, name: Seq<char>, f: int) -> bool {
    &&& 0 <= f < files.len()
    &&& files[f]@ == name
    &&& forall|j: int| 0 <= j < f ==> (#[trigger] files[j])@ != name
}

/// The post-prologue addresses of every function named `name`, in table
/// order.
pub open spec fn fn_matches(funcs: Seq<FuncSym>, name: Seq<char>) -> Seq<u64>
    decreases funcs.len(),
{
    if funcs.len() == 0 {
        Seq::empty()
    } else {
        fn_matches(funcs.drop_last(), name) + if funcs.last().name@ == name {
            seq![funcs.last().post_prologue]
        } else {
            Seq::empty()
        }
    }
}

/// The raw material of a well-formed index: every row names a known file and
/// no address is described twice, and every function's prologue lies inside
/// its body.
#[verifier::opaque]
pub open spec fn index_wf(files: Seq<String>, rows: Seq<LineRow>, funcs: Seq<FuncSym>) -> bool {
    &&& files.len() <= 0xFFFF_FFFF
    &&& rows_unique(rows)
    &&& forall|i: int| 0 <= i < rows.len() ==> (#[trigger] rows[i]).file < files.len()
    &&& forall|i: int|
        0 <= i < funcs.len() ==> (#[trigger] funcs[i]).entry <= funcs[i].post_prologue
            < funcs[i].end
}

impl DebugInfo {
    /// The index is well formed.
    pub open spec fn wf(self) -> bool {
        index_wf(self.files@, self.rows@, self.funcs@)
    }

    /// Some address of the line table equals `a`.
    pub open spec fn located(self, a: u64) -> bool {
        exists|i: int| 0 <= i < self.rows@.len() && (#[trigger] self.rows@[i]).address == a
    }

    /// The index of the (unique) row describing address `a`.
    pub open spec fn row_of(self, a: u64) -> int {
        choose|i: int| 0 <= i < self.rows@.len() && (#[trigger] self.rows@[i]).address == a
    }

    /// The source line of address `a`, where located.
    pub open spec fn line_at(self, a: u64) -> u32 {
        self.rows@[self.row_of(a)].line
    }

    /// The file of address `a`, where located.
    pub open spec fn file_at(self, a: u64) -> u32 {
        self.rows@[self.row_of(a)].file
    }

    /// The source line of address `a` as an option: `None` outside every
    /// known range.
    pub open spec fn line_opt(self, a: u64) -> Option<u32> {
        if self.located(a) {
            Some(self.line_at(a))
        } else {
            None
        }
    }

    /// Builds the index, refusing one whose line table describes an address
    /// twice, names an unknown file, or whose functions have their prologue
    /// outside their body.
    pub fn new(files: Vec<String>, rows: Vec<LineRow>, funcs: Vec<FuncSym>) -> (r: Option<
        DebugInfo,
    >)
        ensures
            match r {
                Some(info) => {
                    &&& info.wf()
                    &&& info.files@ == files@
                    &&& info.rows@ == rows@
                    &&& info.funcs@ == funcs@
                },
                None => !index_wf(files@, rows@, funcs@),
            },
    {
        proof {
            reveal(index_wf);
        }
        let candidate = DebugInfo { files, rows, funcs };
        if candidate.files.len() > 0xFFFF_FFFFusize {
            return None;
        }
        let mut i: usize = 0;
        #[verifier::loop_isolation(false)]
        while i < candidate.rows.len()
            invariant
                i <= candidate.rows@.len(),
                forall|p: int, q: int|
                    0 <= p < i && 0 <= q < candidate.rows@.len() && p != q
                        ==> candidate.rows@[p].address != candidate.rows@[q].address,
                forall|p: int| 0 <= p < i ==> (#[trigger] candidate.rows@[p]).file < candidate.files@.len(),
            decreases candidate.rows@.len() - i,
        {
            if candidate.rows[i].file as usize >= candidate.files.len() {
                return None;
            }
            let mut j: usize = 0;
            #[verifier::loop_isolation(false)]
            while j < candidate.rows.len()
                invariant
                    i < candidate.rows@.len(),
                    j <= candidate.rows@.len(),
                    forall|q: int|
                        0 <= q < j && q != i ==> candidate.rows@[i as int].address != (
                        #[trigger] candidate.rows@[q]).address,
                decreases candidate.rows@.len() - j,
            {
                if j != i && candidate.rows[j].address == candidate.rows[i].address {
                    return None;
                }
                j += 1;
            }
            i += 1;
        }
        let mut k: usize = 0;
        #[verifier::loop_isolation(false)]
        while k < candidate.funcs.len()
            invariant
                k <= candidate.funcs@.len(),
                forall|p: int|
                    0 <= p < k ==> (#[trigger] candidate.funcs@[p]).entry
                        <= candidate.funcs@[p].post_prologue < candidate.funcs@[p].end,
            decreases candidate.funcs@.len() - k,
        {
            let f = &candidate.funcs[k];
            if !(f.entry <= f.post_prologue && f.post_prologue < f.end) {
                return None;
            }
            k += 1;
        }
        Some(candidate)
    }

    /// The index of the first file whose name equals `name`, if any.
    pub fn file_id(&self, name: &str) -> (r: Option<u32>)
        requires
            self.wf(),
        ensures
            match r {
                Some(i) => {
                    &&& i < self.files@.len()
                    &&& self.files@[i as int]@ == name@
                    &&& forall|j: int| 0 <= j < i ==> (#[trigger] self.files@[j])@ != name@
                },
                None => forall|j: int| 0 <= j < self.files@.len() ==> (#[trigger] self.files@[j])@ != name@,
            },
    {
        proof {
            reveal(index_wf);
        }
        let wanted: String = name.to_owned();
        let mut i: usize = 0;
        #[verifier::loop_isolation(false)]
        while i < self.files.len()
            invariant
                i <= self.files@.len(),
                wanted@ == name@,
                forall|j: int| 0 <= j < i ==> (#[trigger] self.files@[j])@ != name@,
            decreases self.files@.len() - i,
        {
            if self.files[i] == wanted {
                return Some(i as u32);
            }
            i += 1;
        }
        None
    }

    /// The inverse mapping: the file/line of an instruction address, or
    /// `None` for addresses outside every known range.
    pub fn locate(&self, a: u64) -> (r: Option<Location>)
        requires
            self.wf(),
        ensures
            match r {
                Some(loc) => {
                    &&& self.located(a)
                    &&& loc.address == a
                    &&& loc.line == self.line_at(a)
                    &&& loc.file == self.file_at(a)
                },
                None => !self.located(a),
            },
    {
        proof {
            reveal(index_wf);
        }
        let mut i: usize = 0;
        #[verifier::loop_isolation(false)]
        while i < self.rows.len()
            invariant
                self.wf(),
                i <= self.rows@.len(),
                forall|j: int| 0 <= j < i ==> (#[trigger] self.rows@[j]).address != a,
            decreases self.rows@.len() - i,
        {
            let row = self.rows[i];
            if row.address == a {
                return Some(Location { file: row.file, line: row.line, address: a });
            }
            i += 1;
        }
        None
    }

    /// Resolves `file:line` to the instruction address of that line or, for a
    /// line with no instruction of its own, of the nearest following line in
    /// the same file; earliest address on a tie. Fails with
    /// `LocationNotFound` when no instruction at or after the line exists in
    /// that file.
    pub fn resolve_line(&self, file: u32, line: u32) -> (r: Result<u64, EngineError>)
        requires
            self.wf(),
        ensures
            match r {
                Ok(a) => exists|i: int| row_is_best(self.rows@, file, line, i) && a == (
                #[trigger] self.rows@[i]).address,
                Err(e) => {
                    &&& e == EngineError::LocationNotFound
                    &&& forall|i: int|
                        0 <= i < self.rows@.len() ==> !row_serves(#[trigger] self.rows@[i], file, line)
                },
            },
    {
        proof {
            reveal(index_wf);
        }
        let mut best: Option<usize> = None;
        let mut i: usize = 0;
        #[verifier::loop_isolation(false)]
        while i < self.rows.len()
            invariant
                self.wf(),
                i <= self.rows@.len(),
                match best {
                    Some(b) => {
                        &&& b < i
                        &&& row_serves(self.rows@[b as int], file, line)
                        &&& forall|j: int|
                            0 <= j < i && row_serves(#[trigger] self.rows@[j], file, line)
                                ==> self.rows@[b as int].line < self.rows@[j].line || (
                            self.rows@[b as int].line == self.rows@[j].line
                                && self.rows@[b as int].address <= self.rows@[j].address)
                    },
                    None => forall|j: int|
                        0 <= j < i ==> !row_serves(#[trigger] self.rows@[j], file, line),
                },
            decreases self.rows@.len() - i,
        {
            let row = self.rows[i];
            if row.file == file && row.line >= line {
                match best {
                    None => {
                        best = Some(i);
                    },
                    Some(b) => {
                        let cur = self.rows[b];
                        if row.line < cur.line || (row.line == cur.line && row.address
                            < cur.address) {
                            best = Some(i);
                        }
                    },
                }
            }
            i += 1;
        }
        match best {
            Some(b) => Ok(self.rows[b].address),
            None => Err(EngineError::LocationNotFound),
        }
    }

    /// Resolves a function name to the post-prologue addresses of every
    /// function of that name, in table order, so that a caller can install
    /// one breakpoint per match. Fails with `SymbolNotFound` for unknown
    /// names.
    pub fn resolve_function(&self, name: &str) -> (r: Result<Vec<u64>, EngineError>)
        ensures
            match r {
                Ok(v) => v@ == fn_matches(self.funcs@, name@) && v@.len() > 0,
                Err(e) => {
                    &&& e == EngineError::SymbolNotFound
                    &&& fn_matches(self.funcs@, name@).len() == 0
                },
            },
    {
        let wanted: String = name.to_owned();
        let mut out: Vec<u64> = Vec::new();
        let mut i: usize = 0;
        #[verifier::loop_isolation(false)]
        while i < self.funcs.len()
            invariant
                i <= self.funcs@.len(),
                wanted@ == name@,
                out@ == fn_matches(self.funcs@.take(i as int), name@),
            decreases self.funcs@.len() - i,
        {
            proof {
                assert(self.funcs@.take(i + 1 as int).drop_last() == self.funcs@.take(i as int));
                assert(self.funcs@.take(i + 1 as int).last() == self.funcs@[i as int]);
            }
            if self.funcs[i].name == wanted {
                out.push(self.funcs[i].post_prologue);
            }
            i += 1;
        }
        proof {
            assert(self.funcs@.take(self.funcs@.len() as int) == self.funcs@);
        }
        if out.len() == 0 {
            Err(EngineError::SymbolNotFound)
        } else {
            Ok(out)
        }
    }

    /// Two best rows for one request are the same row: the resolved address
    /// of a `file:line` request is unique.
    pub proof fn lemma_best_unique(&self, f: u32, line: u32, i: int, j: int)
        requires
            self.wf(),
            row_is_best(self.rows@, f, line, i),
            row_is_best(self.rows@, f, line, j),
        ensures
            i == j,
    {
        reveal(index_wf);
        assert(self.rows@[i].line == self.rows@[j].line);
        assert(self.rows@[i].address == self.rows@[j].address);
    }

    /// The frame-information query: the first function whose body encloses
    /// `a`, answering which frame an address belongs to.
    pub fn function_at(&self, a: u64) -> (r: Option<usize>)
        ensures
            match r {
                Some(i) => {
                    &&& i < self.funcs@.len()
                    &&& self.funcs@[i as int].entry <= a < self.funcs@[i as int].end
                    &&& forall|j: int|
                        0 <= j < i ==> !((#[trigger] self.funcs@[j]).entry <= a
                            < self.funcs@[j].end)
                },
                None => forall|j: int|
                    0 <= j < self.funcs@.len() ==> !((#[trigger] self.funcs@[j]).entry <= a
                        < self.funcs@[j].end),
            },
    {
        let mut i: usize = 0;
        #[verifier::loop_isolation(false)]
        while i < self.funcs.len()
            invariant
                i <= self.funcs@.len(),
                forall|j: int|
                    0 <= j < i ==> !((#[trigger] self.funcs@[j]).entry <= a < self.funcs@[j].end),
            decreases self.funcs@.len() - i,
        {
            if self.funcs[i].entry <= a && a < self.funcs[i].end {
                return Some(i);
            }
            i += 1;
        }
        None
    }
}

} // verus!
