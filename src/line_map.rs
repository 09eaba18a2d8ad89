use std::collections::HashMap;
use vstd::prelude::*;
use vstd::utf8::{
    encode_utf8, encode_utf8_valid_utf8, is_char_boundary, is_char_boundary_iff_not_is_continuation_byte,
    is_continuation_byte, valid_utf8, valid_utf8_split,
};

verus! {

broadcast use vstd::std_specs::hash::group_hash_axioms;

/// Files longer than this many bytes are rejected from all interactions.
pub const MAX_FILE_LEN: usize = 128 * 1024 * 1024;

/// How many UTF-16 code units fewer a non-ASCII codepoint takes than UTF-8 bytes.
#[derive(Debug, Clone, Copy, PartialEq, Eq, Structural)]
pub enum CodeUnitsDiff {
    One,
    Two,
}

impl CodeUnitsDiff {
    pub open spec fn spec_value(self) -> u32 {
        match self {
            CodeUnitsDiff::One => 1,
            CodeUnitsDiff::Two => 2,
        }
    }

    pub fn value(self) -> (r: u32)
        ensures
            r == self.spec_value(),
    {
        match self {
            CodeUnitsDiff::One => 1,
            CodeUnitsDiff::Two => 2,
        }
    }
}

/// The diff recorded for a byte: only leading bytes of multi-byte codepoints have one.
pub open spec fn diff_of_byte(b: u8) -> Option<CodeUnitsDiff> {
    if b < 0xC0 {
        None
    } else if b < 0xE0 {
        Some(CodeUnitsDiff::One)
    } else {
        Some(CodeUnitsDiff::Two)
    }
}

/// The text with every carriage return removed.
pub open spec fn strip_cr(s: Seq<char>) -> Seq<char> {
    s.filter(|c: char| c != '\r')
}

/// One past each newline among the first `n` bytes, in order.
pub open spec fn newline_ends(bytes: Seq<u8>, n: int) -> Seq<u32>
    decreases n,
{
    if n <= 0 {
        seq![]
    } else if bytes[n - 1] == 10u8 {
        newline_ends(bytes, n - 1).push(n as u32)
    } else {
        newline_ends(bytes, n - 1)
    }
}

/// The start of each line, followed by the text length.
pub open spec fn line_starts_of(bytes: Seq<u8>) -> Seq<u32> {
    seq![0u32] + newline_ends(bytes, bytes.len() as int) + seq![bytes.len() as u32]
}

/// The diff entries of the bytes `[start, end)`, offsets taken from `start`.
pub open spec fn diffs_of_range(bytes: Seq<u8>, start: int, end: int) -> Seq<(u32, CodeUnitsDiff)>
    decreases end - start,
{
    if end <= start {
        seq![]
    } else {
        let prev = diffs_of_range(bytes, start, end - 1);
        match diff_of_byte(bytes[end - 1]) {
            Some(d) => prev.push(((end - 1 - start) as u32, d)),
            None => prev,
        }
    }
}

/// The column after moving it past every diff entry that precedes it, entry by entry.
pub open spec fn widen_col(d: Seq<(u32, CodeUnitsDiff)>, col: int) -> int
    decreases d.len(),
{
    if d.len() == 0 {
        col
    } else {
        let c = widen_col(d.drop_last(), col);
        if (d.last().0 as int) < c {
            c + d.last().1.spec_value()
        } else {
            c
        }
    }
}

/// The sum of the diffs of the leading entries whose offset is below `col`.
pub open spec fn diff_before(d: Seq<(u32, CodeUnitsDiff)>, col: int) -> int
    decreases d.len(),
{
    if d.len() == 0 {
        0
    } else if (d[0].0 as int) < col {
        d[0].1.spec_value() + diff_before(d.drop_first(), col)
    } else {
        0
    }
}

pub open spec fn sat_sub(a: int, b: int) -> int {
    if a >= b {
        a - b
    } else {
        0
    }
}

proof fn lemma_newline_ends(bytes: Seq<u8>, n: int)
    requires
        0 <= n <= bytes.len() <= u32::MAX,
    ensures
        newline_ends(bytes, n).len() <= n,
        forall|i: int|
            0 <= i < newline_ends(bytes, n).len() ==> 1 <= #[trigger] newline_ends(bytes, n)[i] <= n,
        forall|i: int, j: int|
            0 <= i < j < newline_ends(bytes, n).len() ==> newline_ends(bytes, n)[i]
                < newline_ends(bytes, n)[j],
    decreases n,
{
    if n > 0 {
        lemma_newline_ends(bytes, n - 1);
    }
}

/// Index structure for converting byte offsets to (line, UTF-16 column) and back.
#[derive(Debug, PartialEq, Eq)]
pub struct LineMap {
    line_starts: Vec<u32>,
    char_diffs: HashMap<u32, Vec<(u32, CodeUnitsDiff)>>,
}

impl LineMap {
    pub closed spec fn starts(&self) -> Seq<u32> {
        self.line_starts@
    }

    /// The diff entries of a line: empty for lines that are all ASCII.
    pub closed spec fn line_diffs(&self, line: u32) -> Seq<(u32, CodeUnitsDiff)> {
        if self.char_diffs@.contains_key(line) {
            self.char_diffs@[line]@
        } else {
            seq![]
        }
    }

    pub closed spec fn diff_lines(&self) -> Set<u32> {
        self.char_diffs@.dom()
    }

    /// This map indexes the UTF-8 text `bytes`.
    pub open spec fn is_map_of(&self, bytes: Seq<u8>) -> bool {
        &&& bytes.len() <= MAX_FILE_LEN
        &&& self.starts() == line_starts_of(bytes)
        &&& forall|l: u32|
            #![trigger self.line_diffs(l)]
            (l as int) + 1 < self.starts().len() ==> self.line_diffs(l) == diffs_of_range(
                bytes,
                self.starts()[l as int] as int,
                self.starts()[l + 1] as int,
            )
        &&& forall|l: u32|
            #[trigger] self.diff_lines().contains(l) ==> (l as int) + 1 < self.starts().len()
                && self.line_diffs(l).len() > 0
    }

    /// The line start order that every map keeps.
    pub open spec fn wf(&self) -> bool {
        &&& self.starts().len() >= 2
        &&& self.starts().len() <= u32::MAX
        &&& self.starts()[0] == 0
        &&& forall|i: int| 0 <= i < self.starts().len() ==> #[trigger] self.starts()[i] <= MAX_FILE_LEN
        &&& forall|l: u32| #[trigger] self.line_diffs(l).len() <= MAX_FILE_LEN
        &&& forall|i: int, j: int|
            0 <= i <= j < self.starts().len() ==> self.starts()[i] <= self.starts()[j]
    }

    /// The byte offset of `(line, col)`: an unknown line counts from offset 0.
    pub open spec fn pos_spec(&self, line: u32, col: u32) -> int {
        let base = if (line as int) < self.starts().len() {
            self.starts()[line as int] as int
        } else {
            0
        };
        base + widen_col(self.line_diffs(line), col as int)
    }

    /// `line` is the last line whose start is at or before `pos`.
    pub open spec fn is_line_of(&self, pos: u32, line: int) -> bool {
        &&& 0 <= line < self.starts().len()
        &&& self.starts()[line] <= pos
        &&& (line + 1 == self.starts().len() || pos < self.starts()[line + 1])
    }

    /// The UTF-16 column of `pos` on line `line`.
    pub open spec fn col_spec(&self, pos: u32, line: u32) -> int {
        let c = pos - self.starts()[line as int];
        sat_sub(c, diff_before(self.line_diffs(line), c))
    }
}


/// Relies on `str::replace`: replacing the pattern `'\r'` by `""` removes every carriage return.
#[verifier::external_body]
fn remove_carriage_returns(s: &str) -> (r: String)
    ensures
        r@ == strip_cr(s@),
{
    s.replace('\r', "")
}

impl LineMap {
    /// Strips carriage returns from `text` and indexes the result; `None` when
    /// the text, before or after stripping, is longer than `MAX_FILE_LEN` bytes.
    pub fn normalize(text: String) -> (r: Option<(String, LineMap)>)
        ensures
            r is Some <==> (encode_utf8(text@).len() <= MAX_FILE_LEN && encode_utf8(
                strip_cr(text@),
            ).len() <= MAX_FILE_LEN),
            r matches Some(p) ==> p.0@ == strip_cr(text@) && p.1.wf() && p.1.is_map_of(
                encode_utf8(p.0@),
            ),
    {
        let len = text.as_str().as_bytes().len();
        if len > MAX_FILE_LEN {
            return None;
        }
        let text = remove_carriage_returns(text.as_str());
        let bytes = text.as_str().as_bytes();
        let n = bytes.len();
        if n > MAX_FILE_LEN {
            return None;
        }
        let ghost b = bytes@;
        let mut line_starts: Vec<u32> = Vec::new();
        line_starts.push(0);
        let mut i: usize = 0;
        while i < n
            invariant
                b == bytes@,
                n == b.len(),
                n <= MAX_FILE_LEN,
                i <= n,
                line_starts@ == seq![0u32] + newline_ends(b, i as int),
            decreases n - i,
        {
            if bytes[i] == 10u8 {
                line_starts.push((i + 1) as u32);
                assert(line_starts@ =~= seq![0u32] + newline_ends(b, i + 1));
            } else {
                assert(line_starts@ =~= seq![0u32] + newline_ends(b, i + 1));
            }
            i += 1;
        }
        line_starts.push(n as u32);
        assert(line_starts@ =~= line_starts_of(b));
        proof {
            lemma_newline_ends(b, n as int);
        }
        let ghost ls = line_starts@;
        assert(ls.len() <= n + 2);
        assert forall|i: int, j: int| 0 <= i <= j < ls.len() implies ls[i] <= ls[j] by {
            let ne = newline_ends(b, n as int);
            if i > 0 && j < ls.len() - 1 && i < j {
                assert(ls[i] == ne[i - 1] && ls[j] == ne[j - 1]);
            } else if i > 0 && i < ls.len() - 1 {
                assert(ls[i] == ne[i - 1]);
            }
        }
        let mut char_diffs: HashMap<u32, Vec<(u32, CodeUnitsDiff)>> = HashMap::new();
        let nl = line_starts.len();
        let mut k: usize = 0;
        while k + 1 < nl
            invariant
                b == bytes@,
                n == b.len(),
                n <= MAX_FILE_LEN,
                ls == line_starts@,
                nl == ls.len(),
                nl >= 2,
                nl <= n + 2,
                k + 1 <= nl,
                ls.last() == n,
                forall|i: int, j: int| 0 <= i <= j < ls.len() ==> ls[i] <= ls[j],
                forall|l: u32|
                    (l as int) < k ==> (#[trigger] char_diffs@.contains_key(l) <==> diffs_of_range(
                        b,
                        ls[l as int] as int,
                        ls[l + 1] as int,
                    ).len() > 0),
                forall|l: u32|
                    #[trigger] char_diffs@.contains_key(l) ==> (l as int) < k && char_diffs@[l]@
                        == diffs_of_range(b, ls[l as int] as int, ls[l + 1] as int),
            decreases nl - k,
        {
            let start = line_starts[k];
            let end = line_starts[k + 1];
            assert(end <= n) by {
                assert(ls[k + 1] <= ls[nl - 1]);
            }
            let mut diffs: Vec<(u32, CodeUnitsDiff)> = Vec::new();
            let mut j: usize = start as usize;
            while j < end as usize
                invariant
                    b == bytes@,
                    n == b.len(),
                    start <= j <= end <= n <= MAX_FILE_LEN,
                    diffs@ == diffs_of_range(b, start as int, j as int),
                decreases end - j,
            {
                let c = bytes[j];
                if c >= 0xC0u8 {
                    let d = if c < 0xE0u8 {
                        CodeUnitsDiff::One
                    } else {
                        CodeUnitsDiff::Two
                    };
                    diffs.push(((j - start as usize) as u32, d));
                }
                j += 1;
            }
            let ghost d = diffs@;
            let ghost prev = char_diffs@;
            if diffs.len() > 0 {
                char_diffs.insert(k as u32, diffs);
                assert(char_diffs@.contains_key(k as u32) && char_diffs@[k as u32]@ == d);
            }
            assert forall|l: u32|
                (l as int) < k + 1 implies (#[trigger] char_diffs@.contains_key(l)
                <==> diffs_of_range(b, ls[l as int] as int, ls[l + 1] as int).len() > 0) by {
                if (l as int) < k {
                    assert(prev.contains_key(l) <==> diffs_of_range(
                        b,
                        ls[l as int] as int,
                        ls[l + 1] as int,
                    ).len() > 0);
                }
            }
            assert forall|l: u32| #[trigger]
                char_diffs@.contains_key(l) implies (l as int) < k + 1 && char_diffs@[l]@
                == diffs_of_range(b, ls[l as int] as int, ls[l + 1] as int) by {
                if l != k as u32 {
                    assert(prev.contains_key(l));
                }
            }
            k += 1;
        }
        let this = LineMap { line_starts, char_diffs };
        assert forall|l: u32| (l as int) + 1 < this.starts().len() implies #[trigger] this.line_diffs(l)
            == diffs_of_range(b, this.starts()[l as int] as int, this.starts()[l + 1] as int) by {
            if !this.char_diffs@.contains_key(l) {
                assert(this.line_diffs(l) =~= diffs_of_range(
                    b,
                    this.starts()[l as int] as int,
                    this.starts()[l + 1] as int,
                ));
            }
            lemma_diffs_of_range_len(b, this.starts()[l as int] as int, this.starts()[l + 1] as int);
        }
        assert forall|l: u32| #[trigger] this.line_diffs(l).len() <= MAX_FILE_LEN by {
            if (l as int) + 1 < this.starts().len() {
                lemma_diffs_of_range_len(b, this.starts()[l as int] as int, this.starts()[l + 1] as int);
                assert(this.starts()[l as int] <= this.starts()[l + 1]);
            } else {
                assert(!this.char_diffs@.contains_key(l));
            }
        }
        Some((text, this))
    }
}

proof fn lemma_diffs_of_range_len(bytes: Seq<u8>, start: int, end: int)
    ensures
        diffs_of_range(bytes, start, end).len() <= if end > start {
            end - start
        } else {
            0
        },
    decreases end - start,
{
    if end > start {
        lemma_diffs_of_range_len(bytes, start, end - 1);
    }
}

proof fn lemma_widen_col_bound(d: Seq<(u32, CodeUnitsDiff)>, col: int)
    ensures
        widen_col(d, col) <= col + 2 * d.len(),
    decreases d.len(),
{
    if d.len() > 0 {
        lemma_widen_col_bound(d.drop_last(), col);
    }
}

proof fn lemma_diff_before_nonneg(d: Seq<(u32, CodeUnitsDiff)>, col: int)
    ensures
        diff_before(d, col) >= 0,
    decreases d.len(),
{
    if d.len() > 0 {
        lemma_diff_before_nonneg(d.drop_first(), col);
    }
}

proof fn lemma_widen_col_grows(d: Seq<(u32, CodeUnitsDiff)>, col: int, i: int, j: int)
    requires
        0 <= i <= j <= d.len(),
    ensures
        col <= widen_col(d.take(i), col) <= widen_col(d.take(j), col),
    decreases j,
{
    if j > 0 {
        assert(d.take(j).drop_last() =~= d.take(j - 1));
        if i < j {
            lemma_widen_col_grows(d, col, i, j - 1);
        } else {
            lemma_widen_col_grows(d, col, j - 1, j - 1);
        }
    } else {
        assert(d.take(0) =~= Seq::<(u32, CodeUnitsDiff)>::empty());
    }
}

impl LineMap {
    /// The byte offset of the position `line`, `col` (a UTF-16 column).
    pub fn pos(&self, line: u32, col: u32) -> (r: u32)
        requires
            self.wf(),
            self.pos_spec(line, col) <= u32::MAX,
        ensures
            r == self.pos_spec(line, col),
    {
        match self.checked_pos(line, col) {
            Some(p) => p,
            None => 0,
        }
    }

    /// The byte offset of the position `line`, `col`, or `None` when it does
    /// not fit in a `u32`.
    pub fn checked_pos(&self, line: u32, col: u32) -> (r: Option<u32>)
        requires
            self.wf(),
        ensures
            match r {
                Some(p) => p == self.pos_spec(line, col),
                None => self.pos_spec(line, col) > u32::MAX,
            },
    {
        let base: u32 = if (line as usize) < self.line_starts.len() {
            self.line_starts[line as usize]
        } else {
            0
        };
        let mut c: u64 = col as u64;
        match self.char_diffs.get(&line) {
            Some(diffs) => {
                let ghost d = diffs@;
                assert(d == self.line_diffs(line));
                let mut i: usize = 0;
                while i < diffs.len()
                    invariant
                        d == diffs@,
                        i <= d.len() <= MAX_FILE_LEN,
                        c == widen_col(d.take(i as int), col as int),
                    decreases d.len() - i,
                {
                    proof {
                        lemma_widen_col_bound(d.take(i as int), col as int);
                        assert(d.take(i + 1).drop_last() =~= d.take(i as int));
                    }
                    let (cp, v) = diffs[i];
                    if (cp as u64) < c {
                        c = c + v.value() as u64;
                    }
                    i += 1;
                }
                assert(d.take(d.len() as int) =~= d);
            },
            None => {
                assert(self.line_diffs(line) =~= Seq::<(u32, CodeUnitsDiff)>::empty());
            },
        }
        proof {
            lemma_widen_col_bound(self.line_diffs(line), col as int);
        }
        let p: u64 = base as u64 + c;
        if p > u32::MAX as u64 {
            None
        } else {
            Some(p as u32)
        }
    }

    /// The line of `pos` and its UTF-16 column; a column that would fall inside
    /// a codepoint is clamped at 0 rather than wrapping.
    pub fn line_col(&self, pos: u32) -> (r: (u32, u32))
        requires
            self.wf(),
        ensures
            self.is_line_of(pos, r.0 as int),
            r.1 == self.col_spec(pos, r.0),
    {
        let ghost ls = self.line_starts@;
        let mut lo: usize = 0;
        let mut hi: usize = self.line_starts.len();
        while lo < hi
            invariant
                ls == self.line_starts@,
                self.wf(),
                0 <= lo <= hi <= ls.len(),
                forall|i: int| 0 <= i < lo ==> ls[i] <= pos,
                forall|i: int| hi <= i < ls.len() ==> ls[i] > pos,
            decreases hi - lo,
        {
            let mid = lo + (hi - lo) / 2;
            if self.line_starts[mid] <= pos {
                assert(forall|i: int| 0 <= i <= mid ==> ls[i] <= ls[mid as int]);
                lo = mid + 1;
            } else {
                assert(forall|i: int| mid <= i < ls.len() ==> ls[mid as int] <= ls[i]);
                hi = mid;
            }
        }
        assert(ls[0] <= pos);
        let line = lo - 1;
        let c = pos - self.line_starts[line];
        let mut col = c;
        match self.char_diffs.get(&(line as u32)) {
            Some(diffs) => {
                let ghost d = diffs@;
                assert(d == self.line_diffs(line as u32));
                assert(d.subrange(0, d.len() as int) =~= d);
                let mut i: usize = 0;
                while i < diffs.len() && diffs[i].0 < c
                    invariant
                        d == diffs@,
                        i <= d.len(),
                        sat_sub(col as int, diff_before(d.subrange(i as int, d.len() as int), c as int))
                            == sat_sub(c as int, diff_before(d, c as int)),
                    decreases d.len() - i,
                {
                    let ghost rest = d.subrange(i as int, d.len() as int);
                    assert(rest.drop_first() =~= d.subrange(i + 1, d.len() as int));
                    assert(rest[0] == d[i as int]);
                    proof {
                        lemma_diff_before_nonneg(rest.drop_first(), c as int);
                    }
                    col = col.saturating_sub(diffs[i].1.value());
                    i += 1;
                }
            },
            None => {
                assert(self.line_diffs(line as u32) =~= Seq::<(u32, CodeUnitsDiff)>::empty());
            },
        }
        (line as u32, col)
    }

    /// The start of each line, followed by the text length.
    pub fn line_starts(&self) -> (r: &[u32])
        ensures
            r@ == self.starts(),
    {
        self.line_starts.as_slice()
    }

    /// The diff entries of each line that holds non-ASCII text.
    pub fn char_diffs(&self) -> (r: &HashMap<u32, Vec<(u32, CodeUnitsDiff)>>)
        ensures
            r@.dom() == self.diff_lines(),
            forall|l: u32| #[trigger] r@.contains_key(l) ==> r@[l]@ == self.line_diffs(l),
    {
        &self.char_diffs
    }
}

/// Line starts begin at 0, end at the text length and never decrease; they
/// rise strictly between lines, and also onto the final entry when the text is
/// non-empty and does not end with a newline.
pub proof fn lemma_line_starts_increasing(bytes: Seq<u8>)
    requires
        bytes.len() <= MAX_FILE_LEN,
    ensures
        line_starts_of(bytes)[0] == 0,
        line_starts_of(bytes).last() == bytes.len(),
        forall|i: int, j: int|
            0 <= i < j < line_starts_of(bytes).len() - 1 ==> line_starts_of(bytes)[i]
                < line_starts_of(bytes)[j],
        forall|i: int, j: int|
            0 <= i <= j < line_starts_of(bytes).len() ==> line_starts_of(bytes)[i]
                <= line_starts_of(bytes)[j],
        bytes.len() > 0 && bytes.last() != 10u8 ==> forall|i: int, j: int|
            0 <= i < j < line_starts_of(bytes).len() ==> line_starts_of(bytes)[i]
                < line_starts_of(bytes)[j],
{
    let n = bytes.len() as int;
    let ls = line_starts_of(bytes);
    let ne = newline_ends(bytes, n);
    lemma_newline_ends(bytes, n);
    assert(ls.len() == ne.len() + 2);
    assert forall|i: int| 1 <= i < ls.len() - 1 implies ls[i] == ne[i - 1] && 1 <= #[trigger] ls[i] <= n by {
        assert(ls[i] == ne[i - 1]);
    }
    if n > 0 && bytes.last() != 10u8 {
        lemma_newline_ends(bytes, n - 1);
        assert(ne == newline_ends(bytes, n - 1));
        assert forall|i: int| 1 <= i < ls.len() - 1 implies #[trigger] ls[i] < n by {
            assert(ls[i] == newline_ends(bytes, n - 1)[i - 1]);
        }
    }
}

/// Entries that each end (offset plus diff) before the next one starts.
pub open spec fn spaced(d: Seq<(u32, CodeUnitsDiff)>) -> bool {
    forall|i: int, j: int|
        0 <= i < j < d.len() ==> (d[i].0 as int) + (d[i].1.spec_value() as int) < (d[j].0 as int)
}

/// No entry before `col` reaches up to `col`: `col` is not inside a codepoint.
pub open spec fn clear_of(d: Seq<(u32, CodeUnitsDiff)>, col: int) -> bool {
    forall|k: int|
        0 <= k < d.len() && (d[k].0 as int) < col ==> (d[k].0 as int) + (d[k].1.spec_value() as int)
            < col
}

pub open spec fn diff_total(d: Seq<(u32, CodeUnitsDiff)>) -> int
    decreases d.len(),
{
    if d.len() == 0 {
        0
    } else {
        d[0].1.spec_value() + diff_total(d.drop_first())
    }
}

proof fn lemma_diff_before_push_past(d: Seq<(u32, CodeUnitsDiff)>, e: (u32, CodeUnitsDiff), col: int)
    requires
        (e.0 as int) >= col,
    ensures
        diff_before(d.push(e), col) == diff_before(d, col),
    decreases d.len(),
{
    if d.len() > 0 {
        assert(d.push(e).drop_first() =~= d.drop_first().push(e));
        lemma_diff_before_push_past(d.drop_first(), e, col);
    }
}

proof fn lemma_diff_before_all(d: Seq<(u32, CodeUnitsDiff)>, col: int)
    requires
        forall|k: int| 0 <= k < d.len() ==> (#[trigger] d[k].0 as int) < col,
    ensures
        diff_before(d, col) == diff_total(d),
    decreases d.len(),
{
    if d.len() > 0 {
        assert forall|k: int| 0 <= k < d.drop_first().len() implies (#[trigger] d.drop_first()[k].0 as int) < col by {
            assert(d.drop_first()[k] == d[k + 1]);
        }
        lemma_diff_before_all(d.drop_first(), col);
    }
}

proof fn lemma_diff_total_push(d: Seq<(u32, CodeUnitsDiff)>, e: (u32, CodeUnitsDiff))
    ensures
        diff_total(d.push(e)) == diff_total(d) + e.1.spec_value(),
    decreases d.len(),
{
    if d.len() > 0 {
        assert(d.push(e).drop_first() =~= d.drop_first().push(e));
        lemma_diff_total_push(d.drop_first(), e);
    } else {
        assert(d.push(e).drop_first() =~= d);
    }
}

proof fn lemma_diff_total_bound(d: Seq<(u32, CodeUnitsDiff)>)
    requires
        spaced(d),
        d.len() > 0,
    ensures
        diff_total(d) <= (d.last().0 as int) + (d.last().1.spec_value() as int),
    decreases d.len(),
{
    let dp = d.drop_last();
    assert(dp.push(d.last()) =~= d);
    lemma_diff_total_push(dp, d.last());
    if dp.len() > 0 {
        assert(spaced(dp));
        lemma_diff_total_bound(dp);
        assert(dp.last() == d[d.len() - 2]);
    } else {
        assert(diff_total(dp) == 0);
    }
}

/// Taking a column back past the diffs before it and then forward again gives
/// the column back, for spaced entries and a column that no entry straddles.
proof fn lemma_widen_undoes_narrow(d: Seq<(u32, CodeUnitsDiff)>, col: int)
    requires
        spaced(d),
        clear_of(d, col),
        col >= 0,
    ensures
        widen_col(d, sat_sub(col, diff_before(d, col))) == col,
    decreases d.len(),
{
    if d.len() > 0 {
        let dp = d.drop_last();
        let l = d.last();
        assert(dp.push(l) =~= d);
        assert(spaced(dp));
        if (l.0 as int) >= col {
            lemma_diff_before_push_past(dp, l, col);
            assert(clear_of(dp, col));
            lemma_widen_undoes_narrow(dp, col);
        } else {
            let v = l.1.spec_value() as int;
            let cp = col - v;
            assert forall|k: int| 0 <= k < d.len() implies (#[trigger] d[k].0 as int) < col by {
                if k < d.len() - 1 {
                    assert((d[k].0 as int) + (d[k].1.spec_value() as int) < (d[d.len() - 1].0 as int));
                }
            }
            assert forall|k: int| 0 <= k < dp.len() implies (#[trigger] dp[k].0 as int) < cp by {
                assert(dp[k] == d[k]);
                assert((d[k].0 as int) + (d[k].1.spec_value() as int) < (d[d.len() - 1].0 as int));
            }
            assert(clear_of(dp, cp)) by {
                assert forall|k: int| 0 <= k < dp.len() && (dp[k].0 as int) < cp implies (dp[k].0 as int)
                    + (dp[k].1.spec_value() as int) < cp by {
                    assert(dp[k] == d[k]);
                    assert((d[k].0 as int) + (d[k].1.spec_value() as int) < (d[d.len() - 1].0 as int));
                }
            }
            lemma_diff_before_all(d, col);
            lemma_diff_before_all(dp, cp);
            lemma_diff_total_push(dp, l);
            lemma_diff_total_bound(d);
            lemma_widen_undoes_narrow(dp, cp);
        }
    }
}

/// The number of bytes of a codepoint whose leading byte is `b`.
pub open spec fn width_of(b: u8) -> int {
    if b < 0xE0 {
        2
    } else if b < 0xF0 {
        3
    } else {
        4
    }
}

proof fn lemma_leading_byte_followed(bytes: Seq<u8>, j: int)
    requires
        valid_utf8(bytes),
        0 <= j < bytes.len(),
        bytes[j] >= 0xC0,
    ensures
        j + width_of(bytes[j]) <= bytes.len(),
        forall|t: int| 1 <= t < width_of(bytes[j]) ==> #[trigger] is_continuation_byte(bytes[j + t]),
{
    is_char_boundary_iff_not_is_continuation_byte(bytes, j);
    valid_utf8_split(bytes, j);
    let sfx = bytes.subrange(j, bytes.len() as int);
    assert(sfx[0] == bytes[j]);
    assert(valid_utf8(sfx));
    assert forall|t: int| 1 <= t < width_of(bytes[j]) implies #[trigger] is_continuation_byte(bytes[j + t]) by {
        assert(sfx[t] == bytes[j + t]);
    }
}

proof fn lemma_diffs_entries(bytes: Seq<u8>, start: int, end: int)
    requires
        0 <= start,
        end <= bytes.len() <= u32::MAX,
    ensures
        forall|k: int|
            0 <= k < diffs_of_range(bytes, start, end).len() ==> {
                let j = start + (#[trigger] diffs_of_range(bytes, start, end)[k]).0;
                &&& start <= j < end
                &&& bytes[j] >= 0xC0
                &&& diff_of_byte(bytes[j]) == Some(diffs_of_range(bytes, start, end)[k].1)
            },
        forall|i: int, k: int|
            0 <= i < k < diffs_of_range(bytes, start, end).len() ==> diffs_of_range(
                bytes,
                start,
                end,
            )[i].0 < diffs_of_range(bytes, start, end)[k].0,
    decreases end - start,
{
    if end > start {
        lemma_diffs_entries(bytes, start, end - 1);
    }
}

proof fn lemma_line_diffs_spaced(bytes: Seq<u8>, start: int, end: int, p: int)
    requires
        valid_utf8(bytes),
        0 <= start <= p <= end <= bytes.len() <= u32::MAX,
        p == bytes.len() || is_char_boundary(bytes, p),
    ensures
        spaced(diffs_of_range(bytes, start, end)),
        clear_of(diffs_of_range(bytes, start, end), p - start),
{
    let d = diffs_of_range(bytes, start, end);
    lemma_diffs_entries(bytes, start, end);
    assert forall|i: int, k: int| 0 <= i < k < d.len() implies (d[i].0 as int) + (
    d[i].1.spec_value() as int) < (d[k].0 as int) by {
        let ji = start + d[i].0;
        let jk = start + d[k].0;
        assert(bytes[ji] >= 0xC0 && bytes[jk] >= 0xC0);
        lemma_leading_byte_followed(bytes, ji);
        if jk < ji + width_of(bytes[ji]) {
            assert(is_continuation_byte(bytes[ji + (jk - ji)]));
        }
    }
    assert forall|k: int| 0 <= k < d.len() && (d[k].0 as int) < p - start implies (d[k].0 as int) + (
    d[k].1.spec_value() as int) < p - start by {
        let jk = start + d[k].0;
        assert(bytes[jk] >= 0xC0);
        lemma_leading_byte_followed(bytes, jk);
        if p < bytes.len() {
            is_char_boundary_iff_not_is_continuation_byte(bytes, p);
            if p < jk + width_of(bytes[jk]) {
                assert(is_continuation_byte(bytes[jk + (p - jk)]));
            }
        }
    }
}

/// Converting a byte offset on a codepoint boundary to its line and UTF-16
/// column, and that position back to a byte offset, gives the offset.
pub proof fn lemma_offset_round_trip(m: LineMap, text: Seq<char>, p: u32, line: int)
    requires
        m.wf(),
        m.is_map_of(encode_utf8(text)),
        p <= encode_utf8(text).len(),
        is_char_boundary(encode_utf8(text), p as int),
        m.is_line_of(p, line),
    ensures
        0 <= m.col_spec(p, line as u32) <= p,
        m.pos_spec(line as u32, m.col_spec(p, line as u32) as u32) == p,
{
    let bytes = encode_utf8(text);
    encode_utf8_valid_utf8(text);
    let ls = m.starts();
    let l = line as u32;
    let start = ls[line] as int;
    let c = p - start;
    if line + 1 == ls.len() {
        assert(!m.diff_lines().contains(l));
        assert(m.line_diffs(l) =~= Seq::<(u32, CodeUnitsDiff)>::empty());
    } else {
        let end = ls[line + 1] as int;
        assert(ls[l + 1] == ls[line + 1]);
        assert(ls[line + 1] <= ls[ls.len() - 1]);
        assert(ls[ls.len() - 1] == bytes.len());
        assert(m.line_diffs(l) == diffs_of_range(bytes, start, end));
        lemma_line_diffs_spaced(bytes, start, end, p as int);
        lemma_diff_before_nonneg(m.line_diffs(l), c);
        lemma_widen_undoes_narrow(m.line_diffs(l), c);
    }
}

proof fn lemma_narrow_undoes_widen(d: Seq<(u32, CodeUnitsDiff)>, col: int)
    requires
        forall|i: int, j: int| 0 <= i < j < d.len() ==> d[i].0 < d[j].0,
        col >= 0,
    ensures
        diff_before(d, widen_col(d, col)) == widen_col(d, col) - col,
    decreases d.len(),
{
    if d.len() > 0 {
        let dp = d.drop_last();
        let l = d.last();
        assert(dp.push(l) =~= d);
        lemma_narrow_undoes_widen(dp, col);
        let y = widen_col(dp, col);
        if (l.0 as int) < y {
            assert forall|k: int| 0 <= k < dp.len() implies (#[trigger] dp[k].0 as int) < y by {
                assert(dp[k] == d[k]);
                assert(d[k].0 < d[d.len() - 1].0);
            }
            assert forall|k: int| 0 <= k < d.len() implies (#[trigger] d[k].0 as int) < y + l.1.spec_value() by {
                if k < d.len() - 1 {
                    assert(d[k].0 < d[d.len() - 1].0);
                }
            }
            lemma_diff_before_all(dp, y);
            lemma_diff_before_all(d, y + l.1.spec_value());
            lemma_diff_total_push(dp, l);
        } else {
            lemma_diff_before_push_past(dp, l, y);
        }
    }
}

/// Converting a position to a byte offset and that offset back to a position
/// gives the position, for every position that lies on its line: one whose
/// offset comes before the start of the next line.
pub proof fn lemma_position_round_trip(m: LineMap, bytes: Seq<u8>, line: u32, col: u32)
    requires
        m.wf(),
        m.is_map_of(bytes),
        (line as int) + 1 < m.starts().len(),
        m.pos_spec(line, col) < m.starts()[line + 1],
    ensures
        m.is_line_of(m.pos_spec(line, col) as u32, line as int),
        m.col_spec(m.pos_spec(line, col) as u32, line) == col,
{
    let ls = m.starts();
    let d = m.line_diffs(line);
    assert(ls[line + 1] <= ls[ls.len() - 1]);
    lemma_diffs_entries(bytes, ls[line as int] as int, ls[line + 1] as int);
    lemma_widen_col_grows(d, col as int, 0, d.len() as int);
    assert(d.take(d.len() as int) =~= d);
    lemma_narrow_undoes_widen(d, col as int);
}

} // verus!
