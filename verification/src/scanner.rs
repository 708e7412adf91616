use vstd::prelude::*;

use crate::errors::{CorruptSpec, JecsCorruptedDataError};
use crate::text::{first_non_space, lines_view, trim_end_spaces, trim_end_spaces_vec};

verus! {

broadcast use vstd::std_specs::vec::group_vec_axioms, vstd::seq::group_seq_axioms;

// ---------------------------------------------------------------------------
// The scanner's model: one source line (with lookahead for multi-line
// values) becomes at most one line record.
// ---------------------------------------------------------------------------

/// Spec-level form of a scanned line record.
pub struct LineRec {
    /// 1-based source line number, for diagnostics.
    pub row: int,
    /// Count of leading space characters.
    pub indentation: int,
    /// Absent when the line is a list entry (started with `-`).
    pub key: Option<Seq<char>>,
    /// Absent when the line is purely a parent marker.
    pub value: Option<Seq<char>>,
}

/// The three-character token that opens and closes a multi-line value.
pub open spec fn triple_quote() -> Seq<char> {
    "\"\"\""@
}

/// Splits a line at the key delimiter, starting at `p`: the key's raw
/// characters and the position behind the consumed `:`. `Err(true)` is a line
/// that ends before the delimiter, `Err(false)` a `#` inside the key.
pub open spec fn key_split(l: Seq<char>, p: int) -> Result<(Seq<char>, int), bool>
    decreases l.len() - p,
{
    if p < 0 || p >= l.len() {
        Err(true)
    } else if l[p] == ':' {
        Ok((Seq::empty(), p + 1))
    } else if l[p] == '#' {
        Err(false)
    } else {
        match key_split(l, p + 1) {
            Ok((k, np)) => Ok((seq![l[p]] + k, np)),
            Err(e) => Err(e),
        }
    }
}

/// The value characters from `p` on: stops at an unescaped `#`, and turns
/// `\#` into a literal `#`.
pub open spec fn value_chars(l: Seq<char>, p: int) -> Seq<char>
    decreases l.len() - p,
{
    if p < 0 || p >= l.len() {
        Seq::empty()
    } else if l[p] == '\\' && p + 1 < l.len() && l[p + 1] == '#' {
        seq!['#'] + value_chars(l, p + 2)
    } else if l[p] == '#' {
        Seq::empty()
    } else {
        seq![l[p]] + value_chars(l, p + 1)
    }
}

/// The scanned value from `p` on: absent at line end or at a comment,
/// otherwise the value characters with trailing spaces removed.
pub open spec fn read_value_raw(l: Seq<char>, p: int) -> Option<Seq<char>> {
    if p >= l.len() || l[p] == '#' {
        None
    } else {
        Some(trim_end_spaces(value_chars(l, p)))
    }
}

/// What scanning one line yields before multi-line handling.
pub enum BasicScan {
    /// Blank or comment-only: silently skipped.
    Blank,
    /// Key (absent for a list entry), indentation, raw value.
    Rec(Option<Seq<char>>, int, Option<Seq<char>>),
    Fail(CorruptSpec),
}

pub open spec fn scan_line_basic(l: Seq<char>, row: int) -> BasicScan {
    let ind = first_non_space(l, 0);
    if ind >= l.len() {
        BasicScan::Blank
    } else if l[ind] == '#' {
        BasicScan::Blank
    } else if l[ind] == ':' {
        BasicScan::Fail(
            CorruptSpec { row, description: "Line has no key, encountered ':'"@ },
        )
    } else if l[ind] == '-' {
        BasicScan::Rec(None, ind, read_value_raw(l, first_non_space(l, ind + 1)))
    } else {
        match key_split(l, ind) {
            Err(true) => BasicScan::Fail(
                CorruptSpec { row, description: "Unexpected line end while reading key"@ },
            ),
            Err(false) => BasicScan::Fail(
                CorruptSpec { row, description: "key may not contain a # character"@ },
            ),
            Ok((kraw, np)) => BasicScan::Rec(
                Some(trim_end_spaces(kraw)),
                ind,
                read_value_raw(l, first_non_space(l, np)),
            ),
        }
    }
}

/// Accumulates a multi-line value from line `j` on. `fixed` is the
/// indentation the first content line established, `acc` what was gathered,
/// `wrote` whether a newline separator is owed before new content, and
/// `cur_row` the row an unexpected end of input is reported on.
pub open spec fn ml_scan(
    lines: Seq<Seq<char>>,
    j: int,
    opener_ind: int,
    fixed: Option<int>,
    acc: Seq<char>,
    wrote: bool,
    cur_row: int,
) -> Result<(Seq<char>, int), CorruptSpec>
    decreases lines.len() - j,
{
    if j < 0 || j >= lines.len() {
        Err(
            CorruptSpec {
                row: cur_row,
                description: "Multi-line string started, but file ends unexpectedly"@,
            },
        )
    } else {
        let l = lines[j];
        let row = j + 1;
        let ind = first_non_space(l, 0);
        if ind >= l.len() || l[ind] == '#' {
            ml_scan(
                lines,
                j + 1,
                opener_ind,
                fixed,
                if wrote {
                    acc + seq!['\n']
                } else {
                    acc
                },
                true,
                row,
            )
        } else if fixed is None && ind <= opener_ind {
            Err(
                CorruptSpec {
                    row,
                    description:
                        "Multi-line string lines must have more indentation than its opener"@,
                },
            )
        } else if fixed is Some && fixed.unwrap() != ind {
            Err(
                CorruptSpec {
                    row,
                    description:
                        "Multi-line string lines must have consistent indentation until its terminator (\"\"\")"@,
                },
            )
        } else {
            let content = trim_end_spaces(value_chars(l, ind));
            if content == triple_quote() {
                Ok((acc, j + 1))
            } else {
                ml_scan(
                    lines,
                    j + 1,
                    opener_ind,
                    Some(ind),
                    (if wrote {
                        acc + seq!['\n']
                    } else {
                        acc
                    }) + content,
                    true,
                    row,
                )
            }
        }
    }
}

/// Scans the record starting at line `i`: at most one line record, and the
/// index of the next unconsumed line.
pub open spec fn scan_record(lines: Seq<Seq<char>>, i: int) -> Result<
    (Option<LineRec>, int),
    CorruptSpec,
> {
    let l = lines[i];
    let row = i + 1;
    match scan_line_basic(l, row) {
        BasicScan::Blank => Ok((None, i + 1)),
        BasicScan::Fail(e) => Err(e),
        BasicScan::Rec(key, ind, value) => {
            if value == Some(triple_quote()) {
                match ml_scan(lines, i + 1, ind, None, Seq::empty(), false, row) {
                    Ok((acc, ni)) => Ok(
                        (Some(LineRec { row, indentation: ind, key, value: Some(acc) }), ni),
                    ),
                    Err(e) => Err(e),
                }
            } else {
                Ok((Some(LineRec { row, indentation: ind, key, value }), i + 1))
            }
        },
    }
}

proof fn lemma_ml_scan_advances(
    lines: Seq<Seq<char>>,
    j: int,
    opener_ind: int,
    fixed: Option<int>,
    acc: Seq<char>,
    wrote: bool,
    cur_row: int,
)
    requires
        0 <= j,
    ensures
        ml_scan(lines, j, opener_ind, fixed, acc, wrote, cur_row) matches Ok((_, ni)) ==> j < ni
            <= lines.len(),
    decreases lines.len() - j,
{
    if j < lines.len() {
        let l = lines[j];
        let ind = first_non_space(l, 0);
        if ind >= l.len() || l[ind] == '#' {
            lemma_ml_scan_advances(
                lines,
                j + 1,
                opener_ind,
                fixed,
                if wrote {
                    acc + seq!['\n']
                } else {
                    acc
                },
                true,
                j + 1,
            );
        } else if fixed is None && ind <= opener_ind {
        } else if fixed is Some && fixed.unwrap() != ind {
        } else {
            let content = trim_end_spaces(value_chars(l, ind));
            if content != triple_quote() {
                lemma_ml_scan_advances(
                    lines,
                    j + 1,
                    opener_ind,
                    Some(ind),
                    (if wrote {
                        acc + seq!['\n']
                    } else {
                        acc
                    }) + content,
                    true,
                    j + 1,
                );
            }
        }
    }
}

/// A successful scan consumes at least the line it started on.
pub proof fn lemma_scan_record_advances(lines: Seq<Seq<char>>, i: int)
    requires
        0 <= i < lines.len(),
    ensures
        scan_record(lines, i) matches Ok((_, ni)) ==> i < ni <= lines.len(),
{
    match scan_line_basic(lines[i], i + 1) {
        BasicScan::Rec(key, ind, value) => {
            if value == Some(triple_quote()) {
                lemma_ml_scan_advances(lines, i + 1, ind, None, Seq::empty(), false, i + 1);
            }
        },
        _ => {},
    }
}

// ---------------------------------------------------------------------------
// The executable scanner.
// ---------------------------------------------------------------------------

/// A scanned line record.
pub struct LineMeta {
    pub row: usize,
    pub indentation: usize,
    pub key: Option<Vec<char>>,
    pub value: Option<Vec<char>>,
}

impl View for LineMeta {
    type V = LineRec;

    open spec fn view(&self) -> LineRec {
        LineRec {
            row: self.row as int,
            indentation: self.indentation as int,
            key: match self.key {
                Some(k) => Some(k@),
                None => None,
            },
            value: match self.value {
                Some(v) => Some(v@),
                None => None,
            },
        }
    }
}

/// The kind a record asks of its parent: a list entry belongs under a
/// sequence, a keyed entry under a mapping.
pub open spec fn rec_shape_is_list(r: LineRec) -> bool {
    r.key is None
}

/// The lazily determined kind of a node under construction.
#[derive(PartialEq, Eq, Structural)]
pub enum JecsTypeInner {
    Any,
    Value,
    Mapping,
    List,
}

/// The kind a record's shape demands of its parent.
pub open spec fn shape_kind(r: LineRec) -> JecsTypeInner {
    if r.key is None {
        JecsTypeInner::List
    } else {
        JecsTypeInner::Mapping
    }
}

impl LineMeta {
    /// Whether this record is a list entry.
    pub fn is_list(&self) -> (r: bool)
        ensures
            r == rec_shape_is_list(self@),
    {
        self.key.is_none()
    }

    /// The collection kind this record demands of its parent.
    pub fn get_data_type(&self) -> (r: JecsTypeInner)
        ensures
            r == shape_kind(self@),
    {
        if self.is_list() {
            JecsTypeInner::List
        } else {
            JecsTypeInner::Mapping
        }
    }

    /// Whether this record carries no inline value and so can gain children.
    pub fn is_parent(&self) -> (r: bool)
        ensures
            r == (self@.value is None),
    {
        self.value.is_none()
    }
}

fn corrupt(row: usize, description: &str) -> (e: JecsCorruptedDataError)
    ensures
        e@.row == row as int,
        e@.description == description@,
{
    JecsCorruptedDataError { row, description: String::from_str(description) }
}

/// First position at or after `from` holding something else than a space.
fn skip_spaces(l: &Vec<char>, from: usize) -> (r: usize)
    requires
        from <= l@.len(),
    ensures
        r == first_non_space(l@, from as int),
        from <= r <= l@.len(),
{
    let mut j = from;
    while j < l.len() && l[j] == ' '
        invariant
            from <= j <= l@.len(),
            first_non_space(l@, j as int) == first_non_space(l@, from as int),
        decreases l@.len() - j,
    {
        j = j + 1;
    }
    j
}

fn key_split_exec(l: &Vec<char>, start: usize) -> (r: Result<(Vec<char>, usize), bool>)
    requires
        start <= l@.len(),
    ensures
        match r {
            Ok((k, np)) => key_split(l@, start as int) == Ok::<_, bool>((k@, np as int)) && start
                < np <= l@.len(),
            Err(e) => key_split(l@, start as int) == Err::<(Seq<char>, int), _>(e),
        },
{
    let mut acc: Vec<char> = Vec::new();
    let mut j = start;
    proof {
        match key_split(l@, start as int) {
            Ok((k, np)) => {
                assert(acc@ + k =~= k);
            },
            Err(_) => {},
        }
    }
    while j < l.len() && l[j] != ':' && l[j] != '#'
        invariant
            start <= j <= l@.len(),
            (match key_split(l@, j as int) {
                Ok((k, np)) => key_split(l@, start as int) == Ok::<_, bool>((acc@ + k, np)),
                Err(e) => key_split(l@, start as int) == Err::<(Seq<char>, int), _>(e),
            }),
        decreases l@.len() - j,
    {
        let ghost prev = acc@;
        acc.push(l[j]);
        proof {
            match key_split(l@, j + 1) {
                Ok((k, np)) => {
                    assert(prev + (seq![l@[j as int]] + k) =~= acc@ + k);
                },
                Err(_) => {},
            }
        }
        j = j + 1;
    }
    if j >= l.len() {
        return Err(true);
    }
    if l[j] == '#' {
        return Err(false);
    }
    proof {
        assert(key_split(l@, j as int) == Ok::<_, bool>((Seq::<char>::empty(), j + 1)));
        assert(acc@ + Seq::<char>::empty() =~= acc@);
    }
    Ok((acc, j + 1))
}

/// Reads a line's value portion from `p` on.
fn read_value_exec(l: &Vec<char>, p: usize) -> (r: Option<Vec<char>>)
    requires
        p <= l@.len(),
    ensures
        match r {
            Some(v) => read_value_raw(l@, p as int) == Some(v@),
            None => read_value_raw(l@, p as int) is None,
        },
{
    if p >= l.len() || l[p] == '#' {
        return None;
    }
    let mut acc: Vec<char> = Vec::new();
    let mut j = p;
    let mut done = false;
    while !done && j < l.len()
        invariant
            p <= j <= l@.len(),
            !done ==> acc@ + value_chars(l@, j as int) == value_chars(l@, p as int),
            done ==> acc@ == value_chars(l@, p as int),
        decreases l@.len() - j, (if done { 0int } else { 1int }),
    {
        let c = l[j];
        if c == '\\' && j + 1 < l.len() && l[j + 1] == '#' {
            let ghost prev = acc@;
            acc.push('#');
            proof {
                assert(prev + (seq!['#'] + value_chars(l@, j + 2)) =~= acc@ + value_chars(
                    l@,
                    j + 2,
                ));
            }
            j = j + 2;
        } else if c == '#' {
            proof {
                assert(acc@ + Seq::<char>::empty() =~= acc@);
            }
            done = true;
        } else {
            let ghost prev = acc@;
            acc.push(c);
            proof {
                assert(prev + (seq![l@[j as int]] + value_chars(l@, j + 1)) =~= acc@ + value_chars(
                    l@,
                    j + 1,
                ));
            }
            j = j + 1;
        }
    }
    proof {
        if !done {
            assert(acc@ + Seq::<char>::empty() =~= acc@);
        }
    }
    trim_end_spaces_vec(&mut acc);
    Some(acc)
}

/// Whether the scanned value is exactly the multi-line delimiter token.
fn is_triple_quote(v: &Vec<char>) -> (r: bool)
    ensures
        r == (v@ == triple_quote()),
{
    proof {
        reveal_strlit("\"\"\"");
    }
    if v.len() == 3 && v[0] == '"' && v[1] == '"' && v[2] == '"' {
        proof {
            assert(v@ =~= triple_quote());
        }
        true
    } else {
        proof {
            assert(v@ != triple_quote());
        }
        false
    }
}

/// Scans the record starting at line `i`. Yields no record for a blank or
/// comment-only line; a multi-line value consumes the lookahead lines up to
/// its terminator. The second component is the next unconsumed line.
pub fn parse_line(lines: &Vec<Vec<char>>, i: usize) -> (r: Result<
    (Option<LineMeta>, usize),
    JecsCorruptedDataError,
>)
    requires
        i < lines@.len(),
    ensures
        match r {
            Ok((om, ni)) => {
                &&& scan_record(lines_view(lines@), i as int) matches Ok((orec, sni)) && sni
                    == ni as int && (match (om, orec) {
                    (Some(m), Some(rec)) => m@ == rec,
                    (None, None) => true,
                    _ => false,
                })
                &&& i < ni <= lines@.len()
            },
            Err(e) => scan_record(lines_view(lines@), i as int) == Err::<
                (Option<LineRec>, int),
                _,
            >(e@),
        },
{
    let ghost lv = lines_view(lines@);
    let line_count = lines.len();
    let l = &lines[i];
    proof {
        assert(i < line_count);
    }
    proof {
        assert(l@ == lv[i as int]);
    }
    let row = i + 1;
    let ind = skip_spaces(l, 0);
    if ind >= l.len() {
        return Ok((None, i + 1));
    }
    let c = l[ind];
    if c == '#' {
        return Ok((None, i + 1));
    }
    if c == ':' {
        return Err(corrupt(row, "Line has no key, encountered ':'"));
    }
    let key: Option<Vec<char>>;
    let after_key: usize;
    if c == '-' {
        key = None;
        after_key = ind + 1;
    } else {
        match key_split_exec(l, ind) {
            Ok((mut kraw, np)) => {
                trim_end_spaces_vec(&mut kraw);
                key = Some(kraw);
                after_key = np;
            },
            Err(true) => {
                return Err(corrupt(row, "Unexpected line end while reading key"));
            },
            Err(false) => {
                return Err(corrupt(row, "key may not contain a # character"));
            },
        }
    }
    let vp = skip_spaces(l, after_key);
    let value = read_value_exec(l, vp);
    let is_ml = match &value {
        Some(v) => is_triple_quote(v),
        None => false,
    };
    if !is_ml {
        return Ok((Some(LineMeta { row, indentation: ind, key, value }), i + 1));
    }
    // Multi-line value: pull lookahead lines until the terminator.
    let ghost gkey: Option<Seq<char>> = match &key {
        Some(k) => Some(k@),
        None => None,
    };
    let mut acc: Vec<char> = Vec::new();
    let mut wrote = false;
    let mut fixed: Option<usize> = None;
    let mut cur_row = row;
    let mut j = i + 1;
    loop
        invariant
            i + 1 <= j <= lines@.len(),
            lv == lines_view(lines@),
            i < lines@.len(),
            row == i + 1,
            (match &key {
                Some(k) => gkey == Some(k@),
                None => gkey is None,
            }),
            scan_line_basic(lv[i as int], row as int) == BasicScan::Rec(
                gkey,
                ind as int,
                Some(triple_quote()),
            ),
            ml_scan(
                lv,
                j as int,
                ind as int,
                match fixed {
                    Some(f) => Some(f as int),
                    None => None,
                },
                acc@,
                wrote,
                cur_row as int,
            ) == ml_scan(lv, i + 1, ind as int, None, Seq::empty(), false, row as int),
        decreases lines@.len() - j,
    {
        if j >= lines.len() {
            return Err(corrupt(cur_row, "Multi-line string started, but file ends unexpectedly"));
        }
        let l2 = &lines[j];
        proof {
            assert(l2@ == lv[j as int]);
        }
        let row2 = j + 1;
        let ind2 = skip_spaces(l2, 0);
        if ind2 >= l2.len() || l2[ind2] == '#' {
            let ghost a0 = acc@;
            if wrote {
                acc.push('\n');
            }
            proof {
                if wrote {
                    assert(acc@ =~= a0 + seq!['\n']);
                }
            }
            wrote = true;
            cur_row = row2;
            j = j + 1;
            continue ;
        }
        let fixed_now = match fixed {
            Some(f) => {
                if f != ind2 {
                    return Err(
                        corrupt(
                            row2,
                            "Multi-line string lines must have consistent indentation until its terminator (\"\"\")",
                        ),
                    );
                }
                f
            },
            None => {
                if ind2 <= ind {
                    return Err(
                        corrupt(
                            row2,
                            "Multi-line string lines must have more indentation than its opener",
                        ),
                    );
                }
                ind2
            },
        };
        let content = match read_value_exec(l2, ind2) {
            Some(cv) => cv,
            None => {
                proof {
                    assert(false);
                }
                Vec::new()
            },
        };
        if is_triple_quote(&content) {
            return Ok((Some(LineMeta { row, indentation: ind, key, value: Some(acc) }), j + 1));
        }
        let ghost a0 = acc@;
        if wrote {
            acc.push('\n');
        }
        proof {
            if wrote {
                assert(acc@ =~= a0 + seq!['\n']);
            }
        }
        let ghost a1 = acc@;
        let mut rest = content;
        let ghost c0 = rest@;
        acc.append(&mut rest);
        proof {
            assert(acc@ =~= a1 + c0);
        }
        wrote = true;
        fixed = Some(fixed_now);
        cur_row = row2;
        j = j + 1;
    }
}

} // verus!
