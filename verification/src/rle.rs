//! Patterns as run-length encoded text.
//!
//! The format is described at
//! <https://www.conwaylife.com/wiki/Run_Length_Encoded>.

use crate::canon::is_empty_grid;
use crate::envelope::{least_level, lemma_least_level_insert, LATTICE_RADIUS};
use crate::bounds::{bounds, lemma_bounds};
use crate::export::{bit8, buffer_shows, row_bytes, write_buffer, ExportError};
use crate::life::with_cell;
use crate::rule::{digit_char, digit_str, parse_rule_bytes, Rule, RuleError};
use crate::universe::Universe;
use vstd::prelude::*;
use vstd::slice::slice_subrange;
use vstd::string::{StringExecFns, StringSliceAdditionalSpecFns};

verus! {

/// Why a text could not be read as a pattern.
#[derive(Clone, Copy, PartialEq, Eq, Debug, Structural)]
pub enum RleError {
    /// The first line is not of the form `x = <w>, y = <h>`, with a rule or
    /// without.
    MalformedHeader,
    /// The header names a rule that is none.
    MalformedRule,
    /// The header names a rule with birth on zero neighbours.
    B0NotAllowed,
    /// The body ends before its `!`, or holds a character that is neither a
    /// digit nor white space nor a letter nor `$` nor `!`.
    MalformedInput,
    /// A live cell lies outside the lattice.
    LatticeOverflow,
}

pub open spec fn is_space(c: u8) -> bool {
    c == 32 || 9 <= c <= 13
}

pub open spec fn is_digit(c: u8) -> bool {
    48 <= c <= 57
}

pub open spec fn is_alpha(c: u8) -> bool {
    65 <= c <= 90 || 97 <= c <= 122
}

/// The position of the first byte from `i` on that is no white space.
pub open spec fn skip_spaces(s: Seq<u8>, i: int) -> int
    decreases s.len() - i,
{
    if 0 <= i < s.len() && is_space(s[i]) {
        skip_spaces(s, i + 1)
    } else {
        i
    }
}

/// The position of the first byte from `i` on that is no digit.
pub open spec fn digits_end(s: Seq<u8>, i: int) -> int
    decreases s.len() - i,
{
    if 0 <= i < s.len() && is_digit(s[i]) {
        digits_end(s, i + 1)
    } else {
        i
    }
}

/// The number that the digits `s[i..j]` stand for.
pub open spec fn number(s: Seq<u8>, i: int, j: int) -> nat
    decreases j - i,
{
    if j <= i {
        0
    } else {
        (number(s, i, j - 1) * 10 + (s[j - 1] - 48)) as nat
    }
}

/// The cells of a run of length `n` that starts at `(x, y)` and goes east.
pub open spec fn run(x: int, y: int, n: int) -> Set<(int, int)> {
    Set::new(|p: (int, int)| p.1 == y && x <= p.0 < x + n)
}

/// The live cells that the body `s` of a pattern describes from position `i`
/// on, when the next cell is `(x, y)`. A run is an optional count and a tag:
/// `b` for dead cells, `$` for the ends of rows, any other letter for live
/// cells. White space between runs is skipped, and `!` ends the body.
pub open spec fn body(s: Seq<u8>, i: int, x: int, y: int) -> Result<Set<(int, int)>, RleError>
    decreases s.len() - i,
{
    let a = skip_spaces(s, i);
    let b = digits_end(s, a);
    let n: int = if b == a {
        1
    } else {
        number(s, a, b) as int
    };
    if a < i || b < a {
        Err(RleError::MalformedInput)
    } else if a >= s.len() {
        Err(RleError::MalformedInput)
    } else if s[a] == 33 {
        Ok(Set::empty())
    } else if b >= s.len() {
        Err(RleError::MalformedInput)
    } else if s[b] == 98 {
        body(s, b + 1, x + n, y)
    } else if s[b] == 36 {
        body(s, b + 1, 0, y + n)
    } else if is_alpha(s[b]) {
        if n > 0 && !(x + n <= LATTICE_RADIUS && y < LATTICE_RADIUS) {
            Err(RleError::LatticeOverflow)
        } else {
            match body(s, b + 1, x + n, y) {
                Ok(rest) => Ok(run(x, y, n).union(rest)),
                Err(e) => Err(e),
            }
        }
    } else {
        Err(RleError::MalformedInput)
    }
}

/// The position of the first byte from `i` on that is no white space.
fn skip_space(s: &[u8], i: usize) -> (j: usize)
    requires
        i <= s@.len(),
    ensures
        i <= j <= s@.len(),
        j == skip_spaces(s@, i as int),
{
    let mut j = i;
    while j < s.len() && (s[j] == 32 || (9 <= s[j] && s[j] <= 13))
        invariant
            i <= j <= s@.len(),
            skip_spaces(s@, i as int) == skip_spaces(s@, j as int),
        decreases s@.len() - j,
    {
        j = j + 1;
    }
    j
}

/// Reads the digits from `i` on: the position after them and their number,
/// or one more than the lattice radius if the number is larger than that.
fn read_count(s: &[u8], i: usize) -> (r: (usize, i64))
    requires
        i <= s@.len(),
    ensures
        i <= r.0 <= s@.len(),
        r.0 == digits_end(s@, i as int),
        r.1 == vstd::math::min(number(s@, i as int, r.0 as int) as int, LATTICE_RADIUS + 1),
{
    let mut j = i;
    let mut v: i64 = 0;
    while j < s.len() && 48 <= s[j] && s[j] <= 57
        invariant
            i <= j <= s@.len(),
            digits_end(s@, i as int) == digits_end(s@, j as int),
            v == vstd::math::min(number(s@, i as int, j as int) as int, LATTICE_RADIUS + 1),
            0 <= v <= LATTICE_RADIUS + 1,
        decreases s@.len() - j,
    {
        let d = (s[j] - 48) as i128;
        let t: i128 = v as i128 * 10 + d;
        v = if t > (LATTICE_RADIUS + 1) as i128 {
            LATTICE_RADIUS + 1
        } else {
            t as i64
        };
        j = j + 1;
    }
    (j, v)
}

/// The universe with the live cells that the body of a pattern describes
/// from position `start` of `s` on.
#[verifier::rlimit(50)]
pub fn read_body(s: &[u8], start: usize, rule: Rule) -> (r: Result<Universe, RleError>)
    requires
        rule.wf(),
        start <= s@.len(),
    ensures
        match body(s@, start as int, 0, 0) {
            Ok(cells) => {
                &&& r is Ok
                &&& r->Ok_0.wf()
                &&& r->Ok_0.cells() == cells
                &&& r->Ok_0.spec_rule() == rule
                &&& least_level(cells, r->Ok_0.spec_level_of(r->Ok_0.spec_root()), 3)
            },
            Err(e) => r is Err && r->Err_0 == e,
        },
{
    let mut uni = Universe::new(rule);
    let mut i = start;
    let mut x: i64 = 0;
    let mut y: i64 = 0;
    let ghost mut gx: int = 0;
    let ghost mut gy: int = 0;
    let ghost whole = body(s@, start as int, 0, 0);
    proof {
        match whole {
            Ok(cells) => {
                assert(uni.cells().union(cells) =~= cells);
            },
            Err(_) => {},
        }
    }
    loop
        invariant
            uni.wf(),
            uni.spec_rule() == rule,
            least_level(uni.cells(), uni.spec_level_of(uni.spec_root()), 3),
            i <= s@.len(),
            0 <= gx,
            0 <= gy,
            x == vstd::math::min(gx, LATTICE_RADIUS as int),
            y == vstd::math::min(gy, LATTICE_RADIUS as int),
            whole == body(s@, start as int, 0, 0),
            whole == (match body(s@, i as int, gx, gy) {
                Ok(rest) => Ok::<Set<(int, int)>, RleError>(uni.cells().union(rest)),
                Err(e) => Err(e),
            }),
        decreases s@.len() - i,
    {
        let a = skip_space(s, i);
        if a >= s.len() {
            return Err(RleError::MalformedInput);
        }
        if s[a] == 33 {
            proof {
                assert(uni.cells().union(Set::empty()) =~= uni.cells());
            }
            return Ok(uni);
        }
        let (b, count) = read_count(s, a);
        let num: i64 = if b == a {
            1
        } else {
            count
        };
        let ghost n: int = if b == a {
            1
        } else {
            number(s@, a as int, b as int) as int
        };
        if b >= s.len() {
            return Err(RleError::MalformedInput);
        }
        let c = s[b];
        proof {
            assert(0 <= num <= LATTICE_RADIUS + 1);
            assert(0 <= x <= LATTICE_RADIUS);
            assert(0 <= y <= LATTICE_RADIUS);
            assert(num == vstd::math::min(n, LATTICE_RADIUS + 1));
        }
        if c == 98 {
            x = if num > LATTICE_RADIUS - x {
                LATTICE_RADIUS
            } else {
                x + num
            };
            proof {
                gx = gx + n;
            }
        } else if c == 36 {
            x = 0;
            y = if num > LATTICE_RADIUS - y {
                LATTICE_RADIUS
            } else {
                y + num
            };
            proof {
                gx = 0;
                gy = gy + n;
            }
        } else if (65 <= c && c <= 90) || (97 <= c && c <= 122) {
            if num > 0 && !(num <= LATTICE_RADIUS - x && y < LATTICE_RADIUS) {
                return Err(RleError::LatticeOverflow);
            }
            let ghost before = uni.cells();
            let mut k: i64 = 0;
            proof {
                assert(before.union(run(gx, gy, 0)) =~= before);
            }
            while k < num
                invariant
                    0 <= k <= num,
                    uni.wf(),
                    uni.spec_rule() == rule,
                    least_level(uni.cells(), uni.spec_level_of(uni.spec_root()), 3),
                    num == n,
                    0 <= x,
                    0 <= y,
                    num > 0 ==> x == gx && y == gy,
                    num > 0 ==> x + num <= LATTICE_RADIUS && y < LATTICE_RADIUS,
                    uni.cells() == before.union(run(gx, gy, k as int)),
                decreases num - k,
            {
                let ghost cur = uni.cells();
                let ghost l0 = uni.spec_level_of(uni.spec_root());
                proof {
                    uni.lemma_wf();
                }
                let r = uni.set(x + k, y, true);
                proof {
                    assert(r is Ok);
                    lemma_least_level_insert(
                        cur,
                        l0,
                        uni.spec_level_of(uni.spec_root()),
                        x + k,
                        y as int,
                        3,
                    );
                    assert(with_cell(cur, x + k, y as int, true) =~= before.union(
                        run(gx, gy, k + 1),
                    ));
                }
                k = k + 1;
            }
            proof {
                assert(run(gx, gy, k as int) =~= run(gx, gy, n));
                match body(s@, b + 1, gx + n, gy) {
                    Ok(rest) => {
                        assert(before.union(run(gx, gy, n).union(rest)) =~= before.union(
                            run(gx, gy, n),
                        ).union(rest));
                    },
                    Err(_) => {},
                }
                gx = gx + n;
            }
            x = x + num;
        } else {
            return Err(RleError::MalformedInput);
        }
        i = b + 1;
    }
}

/// The position of the first byte `c` in `s[from..to]`, or `to`.
pub open spec fn find_byte(s: Seq<u8>, c: u8, from: int, to: int) -> int
    decreases to - from,
{
    if from >= to {
        to
    } else if s[from] == c {
        from
    } else {
        find_byte(s, c, from + 1, to)
    }
}

/// The position of the first byte in `s[from..to]` that is no white space,
/// or `to`.
pub open spec fn trim_start(s: Seq<u8>, from: int, to: int) -> int
    decreases to - from,
{
    if from >= to {
        to
    } else if !is_space(s[from]) {
        from
    } else {
        trim_start(s, from + 1, to)
    }
}

/// The position after the last byte in `s[from..to]` that is no white space,
/// or `from`.
pub open spec fn trim_end(s: Seq<u8>, from: int, to: int) -> int
    decreases to - from,
{
    if from >= to {
        from
    } else if !is_space(s[to - 1]) {
        to
    } else {
        trim_end(s, from, to - 1)
    }
}

/// What the header has said so far: the width, the height and the masks of
/// the rule.
pub type HeaderSpec = (Option<u32>, Option<u32>, Option<(u16, u16)>);

/// The size that the text `s[from..to]` stands for: digits only, at least
/// one, and a number that fits in 32 bits.
pub open spec fn size_spec(s: Seq<u8>, from: int, to: int) -> Option<u32> {
    if from < to && digits_end(s, from) >= to && number(s, from, to) <= u32::MAX {
        Some(number(s, from, to) as u32)
    } else {
        None
    }
}

/// The header after the field `s[from..to]`, which must be a key and a value
/// with one `=` in between. The keys `x`, `y` and `rule` are understood, any
/// other key is passed over.
pub open spec fn field_spec(s: Seq<u8>, from: int, to: int, acc: HeaderSpec) -> Result<
    HeaderSpec,
    RleError,
> {
    let e = find_byte(s, 61, from, to);
    let ka = trim_start(s, from, e);
    let kb = trim_end(s, ka, e);
    let va = trim_start(s, e + 1, to);
    let vb = trim_end(s, va, to);
    if e >= to || find_byte(s, 61, e + 1, to) < to {
        Err(RleError::MalformedHeader)
    } else if s.subrange(ka, kb) == seq![120u8] {
        match size_spec(s, va, vb) {
            Some(w) => Ok((Some(w), acc.1, acc.2)),
            None => Err(RleError::MalformedHeader),
        }
    } else if s.subrange(ka, kb) == seq![121u8] {
        match size_spec(s, va, vb) {
            Some(h) => Ok((acc.0, Some(h), acc.2)),
            None => Err(RleError::MalformedHeader),
        }
    } else if s.subrange(ka, kb) == seq![114u8, 117u8, 108u8, 101u8] {
        match crate::rule::parse_rule_spec(s.subrange(va, vb)) {
            Ok(masks) => Ok((acc.0, acc.1, Some(masks))),
            Err(RuleError::MalformedRule) => Err(RleError::MalformedRule),
            Err(RuleError::B0NotAllowed) => Err(RleError::B0NotAllowed),
        }
    } else {
        Ok(acc)
    }
}

/// The header after the fields of `s[from..to]`, which commas separate.
pub open spec fn fields_spec(s: Seq<u8>, from: int, to: int, acc: HeaderSpec) -> Result<
    HeaderSpec,
    RleError,
>
    decreases to - from,
{
    let c = find_byte(s, 44, from, to);
    if c < from || c > to {
        Err(RleError::MalformedHeader)
    } else {
        match field_spec(s, from, c, acc) {
            Err(e) => Err(e),
            Ok(next) => if c >= to {
                Ok(next)
            } else {
                fields_spec(s, c + 1, to, next)
            },
        }
    }
}

/// The rule that the header of `s` names, if it names one: the header is the
/// first line, and must give a width and a height that are not zero.
pub open spec fn header_spec(s: Seq<u8>) -> Result<Option<(u16, u16)>, RleError> {
    match fields_spec(s, 0, find_byte(s, 10, 0, s.len() as int), (None, None, None)) {
        Err(e) => Err(e),
        Ok(h) => if h.0 is Some && h.1 is Some && h.0->Some_0 > 0 && h.1->Some_0 > 0 {
            Ok(h.2)
        } else {
            Err(RleError::MalformedHeader)
        },
    }
}

fn find(s: &[u8], c: u8, from: usize, to: usize) -> (i: usize)
    requires
        from <= to <= s@.len(),
    ensures
        from <= i <= to,
        i == find_byte(s@, c, from as int, to as int),
{
    let mut i = from;
    while i < to && s[i] != c
        invariant
            from <= i <= to <= s@.len(),
            find_byte(s@, c, from as int, to as int) == find_byte(s@, c, i as int, to as int),
        decreases to - i,
    {
        i = i + 1;
    }
    i
}

fn is_space_byte(c: u8) -> (r: bool)
    ensures
        r == is_space(c),
{
    c == 32 || (9 <= c && c <= 13)
}

fn trim(s: &[u8], from: usize, to: usize) -> (r: (usize, usize))
    requires
        from <= to <= s@.len(),
    ensures
        from <= r.0 <= r.1 <= to,
        r.0 == trim_start(s@, from as int, to as int),
        r.1 == trim_end(s@, r.0 as int, to as int),
{
    let mut a = from;
    while a < to && is_space_byte(s[a])
        invariant
            from <= a <= to <= s@.len(),
            trim_start(s@, from as int, to as int) == trim_start(s@, a as int, to as int),
        decreases to - a,
    {
        a = a + 1;
    }
    let mut b = to;
    while a < b && is_space_byte(s[b - 1])
        invariant
            a <= b <= to <= s@.len(),
            trim_end(s@, a as int, to as int) == trim_end(s@, a as int, b as int),
        decreases b - a,
    {
        b = b - 1;
    }
    (a, b)
}

fn read_size(s: &[u8], from: usize, to: usize) -> (r: Option<u32>)
    requires
        from <= to <= s@.len(),
    ensures
        r == size_spec(s@, from as int, to as int),
{
    if from >= to {
        return None;
    }
    let mut j = from;
    let mut v: u64 = 0;
    while j < to && 48 <= s[j] && s[j] <= 57
        invariant
            from <= j <= to <= s@.len(),
            digits_end(s@, from as int) == digits_end(s@, j as int),
            v == vstd::math::min(number(s@, from as int, j as int) as int, u32::MAX + 1),
        decreases to - j,
    {
        let d = (s[j] - 48) as u64;
        v = v * 10 + d;
        if v > u32::MAX as u64 {
            v = u32::MAX as u64 + 1;
        }
        j = j + 1;
    }
    proof {
        if j < to {
            assert(digits_end(s@, j as int) == j);
        } else {
            lemma_digits_end_bound(s@, j as int);
        }
    }
    if j < to || v > u32::MAX as u64 {
        None
    } else {
        Some(v as u32)
    }
}

proof fn lemma_digits_end_bound(s: Seq<u8>, i: int)
    ensures
        digits_end(s, i) >= i,
    decreases s.len() - i,
{
    if 0 <= i < s.len() && is_digit(s[i]) {
        lemma_digits_end_bound(s, i + 1);
    }
}

fn is_key(s: &[u8], from: usize, to: usize, key: &[u8]) -> (r: bool)
    requires
        from <= to <= s@.len(),
    ensures
        r == (s@.subrange(from as int, to as int) == key@),
{
    if to - from != key.len() {
        return false;
    }
    let mut i: usize = 0;
    while i < key.len()
        invariant
            i <= key@.len(),
            to - from == key@.len(),
            from <= to <= s@.len(),
            forall|j: int| 0 <= j < i ==> s@[from + j] == #[trigger] key@[j],
        decreases key@.len() - i,
    {
        if s[from + i] != key[i] {
            proof {
                assert(s@.subrange(from as int, to as int)[i as int] != key@[i as int]);
            }
            return false;
        }
        i = i + 1;
    }
    proof {
        assert(s@.subrange(from as int, to as int) =~= key@);
    }
    true
}

/// What the header has said so far.
pub struct Header {
    pub width: Option<u32>,
    pub height: Option<u32>,
    pub rule: Option<Rule>,
}

impl Header {
    pub open spec fn view(&self) -> HeaderSpec {
        (
            self.width,
            self.height,
            match self.rule {
                Some(r) => Some((r.birth_mask(), r.survival_mask())),
                None => None,
            },
        )
    }

    pub open spec fn wf(&self) -> bool {
        match self.rule {
            Some(r) => r.wf(),
            None => true,
        }
    }
}

fn read_field(s: &[u8], from: usize, to: usize, acc: Header) -> (r: Result<Header, RleError>)
    requires
        from <= to <= s@.len(),
        acc.wf(),
    ensures
        match field_spec(s@, from as int, to as int, acc@) {
            Ok(h) => r is Ok && r->Ok_0@ == h && r->Ok_0.wf(),
            Err(e) => r is Err && r->Err_0 == e,
        },
{
    let e = find(s, 61, from, to);
    if e >= to {
        return Err(RleError::MalformedHeader);
    }
    if find(s, 61, e + 1, to) < to {
        return Err(RleError::MalformedHeader);
    }
    let (ka, kb) = trim(s, from, e);
    let (va, vb) = trim(s, e + 1, to);
    let key_x: [u8; 1] = [120];
    let key_y: [u8; 1] = [121];
    let key_rule: [u8; 4] = [114, 117, 108, 101];
    proof {
        assert(key_x@ =~= seq![120u8]);
        assert(key_y@ =~= seq![121u8]);
        assert(key_rule@ =~= seq![114u8, 117u8, 108u8, 101u8]);
    }
    if is_key(s, ka, kb, key_x.as_slice()) {
        match read_size(s, va, vb) {
            Some(w) => Ok(Header { width: Some(w), height: acc.height, rule: acc.rule }),
            None => Err(RleError::MalformedHeader),
        }
    } else if is_key(s, ka, kb, key_y.as_slice()) {
        match read_size(s, va, vb) {
            Some(h) => Ok(Header { width: acc.width, height: Some(h), rule: acc.rule }),
            None => Err(RleError::MalformedHeader),
        }
    } else if is_key(s, ka, kb, key_rule.as_slice()) {
        match parse_rule_bytes(slice_subrange(s, va, vb)) {
            Ok(rule) => Ok(Header { width: acc.width, height: acc.height, rule: Some(rule) }),
            Err(RuleError::MalformedRule) => Err(RleError::MalformedRule),
            Err(RuleError::B0NotAllowed) => Err(RleError::B0NotAllowed),
        }
    } else {
        Ok(acc)
    }
}

/// Reads the header of a pattern: the rule that it names, or Conway's rule
/// if it names none, and the position where the body starts.
pub fn read_header(s: &[u8]) -> (r: Result<(Rule, usize), RleError>)
    ensures
        match header_spec(s@) {
            Ok(masks) => {
                &&& r is Ok
                &&& r->Ok_0.0.wf()
                &&& r->Ok_0.1 == find_byte(s@, 10, 0, s@.len() as int)
                &&& r->Ok_0.1 <= s@.len()
                &&& (r->Ok_0.0.birth_mask(), r->Ok_0.0.survival_mask()) == (match masks {
                    Some(m) => m,
                    None => (8u16, 12u16),
                })
            },
            Err(e) => r is Err && r->Err_0 == e,
        },
{
    let end = find(s, 10, 0, s.len());
    let mut acc = Header { width: None, height: None, rule: None };
    let mut from: usize = 0;
    let ghost whole = fields_spec(s@, 0, end as int, (None, None, None));
    loop
        invariant_except_break
            whole == fields_spec(s@, from as int, end as int, acc@),
        invariant
            from <= end <= s@.len(),
            end == find_byte(s@, 10, 0, s@.len() as int),
            acc.wf(),
            whole == fields_spec(s@, 0, end as int, (None, None, None)),
        ensures
            whole == Ok::<HeaderSpec, RleError>(acc@),
        decreases end - from,
    {
        let c = find(s, 44, from, end);
        match read_field(s, from, c, acc) {
            Err(e) => {
                return Err(e);
            },
            Ok(next) => {
                acc = next;
            },
        }
        if c >= end {
            break;
        }
        from = c + 1;
    }
    match (acc.width, acc.height) {
        (Some(w), Some(h)) => {
            if w == 0 || h == 0 {
                return Err(RleError::MalformedHeader);
            }
        },
        _ => {
            return Err(RleError::MalformedHeader);
        },
    }
    let rule = match acc.rule {
        Some(r) => r,
        None => Rule::game_of_life(),
    };
    Ok((rule, end))
}

/// Reads a pattern from run-length encoded text.
pub fn read_bytes(s: &[u8]) -> (r: Result<Universe, RleError>)
    ensures
        match header_spec(s@) {
            Err(e) => r is Err && r->Err_0 == e,
            Ok(masks) => match body(s@, find_byte(s@, 10, 0, s@.len() as int), 0, 0) {
                Err(e) => r is Err && r->Err_0 == e,
                Ok(cells) => {
                    &&& r is Ok
                    &&& r->Ok_0.wf()
                    &&& r->Ok_0.cells() == cells
                    &&& least_level(cells, r->Ok_0.spec_level_of(r->Ok_0.spec_root()), 3)
                    &&& (
                        r->Ok_0.spec_rule().birth_mask(),
                        r->Ok_0.spec_rule().survival_mask(),
                    ) == (match masks {
                        Some(m) => m,
                        None => (8u16, 12u16),
                    })
                },
            },
        },
{
    match read_header(s) {
        Err(e) => Err(e),
        Ok((rule, start)) => read_body(s, start, rule),
    }
}

/// Reads a pattern from run-length encoded text: a header line
/// `x = <w>, y = <h>`, with `rule = <name>` or without, then runs of dead
/// cells, live cells and row ends up to a `!`. The pattern has its north-west
/// corner at the origin, and the root is the least that holds its live cells.
pub fn read(src: &str) -> (r: Result<Universe, RleError>)
    ensures
        match header_spec(src.spec_bytes()) {
            Err(e) => r is Err && r->Err_0 == e,
            Ok(masks) => match body(
                src.spec_bytes(),
                find_byte(src.spec_bytes(), 10, 0, src.spec_bytes().len() as int),
                0,
                0,
            ) {
                Err(e) => r is Err && r->Err_0 == e,
                Ok(cells) => {
                    &&& r is Ok
                    &&& r->Ok_0.wf()
                    &&& r->Ok_0.cells() == cells
                    &&& least_level(cells, r->Ok_0.spec_level_of(r->Ok_0.spec_root()), 3)
                    &&& (
                        r->Ok_0.spec_rule().birth_mask(),
                        r->Ok_0.spec_rule().survival_mask(),
                    ) == (match masks {
                        Some(m) => m,
                        None => (8u16, 12u16),
                    })
                },
            },
        },
{
    read_bytes(src.as_bytes())
}

/// The decimal digits of `n`.
pub open spec fn decimal(n: nat) -> Seq<char>
    decreases n,
{
    if n < 10 {
        seq![digit_char(n as int)]
    } else {
        decimal(n / 10).push(digit_char((n % 10) as int))
    }
}

/// Appends the decimal digits of `n` to `s`, and returns how many they are.
pub fn push_decimal(s: &mut String, n: u64) -> (len: usize)
    ensures
        final(s)@ == old(s)@ + decimal(n as nat),
        len == decimal(n as nat).len(),
        1 <= len <= 20,
{
    let ghost start = s@;
    let mut digits: Vec<u8> = Vec::new();
    let mut rest = n;
    proof {
        vstd::arithmetic::power::lemma_pow0(10);
        assert(Seq::new(0, |i: int| digit_char(digits@[digits@.len() - 1 - i] as int))
            =~= Seq::<char>::empty());
        assert(decimal(n as nat) + Seq::<char>::empty() =~= decimal(n as nat));
    }
    while rest >= 10
        invariant
            digits@.len() <= 19,
            rest * vstd::arithmetic::power::pow(10, digits@.len()) <= n,
            forall|i: int| 0 <= i < digits@.len() ==> #[trigger] digits@[i] <= 9,
            decimal(n as nat) == decimal(rest as nat) + Seq::new(
                digits@.len(),
                |i: int| digit_char(digits@[digits@.len() - 1 - i] as int),
            ),
        decreases rest,
    {
        let ghost before = digits@;
        let ghost old_rest = rest;
        proof {
            vstd::arithmetic::power::lemma_pow1(10);
            vstd::arithmetic::power::lemma_pow_adds(10, digits@.len(), 1);
            vstd::arithmetic::power::lemma_pow_positive(10, digits@.len());
            let p = vstd::arithmetic::power::pow(10, digits@.len());
            assert((rest / 10) * (p * 10) <= rest * p) by (nonlinear_arith)
                requires
                    rest >= 0,
                    p > 0,
            ;
            if digits@.len() == 19 {
                lemma_pow10_19();
                assert(rest * p >= 10 * p) by (nonlinear_arith)
                    requires
                        rest >= 10,
                        p > 0,
                ;
            }
        }
        digits.push((rest % 10) as u8);
        rest = rest / 10;
        proof {
            let tail_old = Seq::new(
                before.len(),
                |i: int| digit_char(before[before.len() - 1 - i] as int),
            );
            let tail_new = Seq::new(
                digits@.len(),
                |i: int| digit_char(digits@[digits@.len() - 1 - i] as int),
            );
            assert(tail_new =~= seq![digit_char((old_rest % 10) as int)] + tail_old);
            assert(decimal(old_rest as nat) =~= decimal(rest as nat).push(
                digit_char((old_rest % 10) as int),
            ));
            assert(decimal(rest as nat) + tail_new =~= decimal(old_rest as nat) + tail_old);
        }
    }
    s.append(digit_str(rest as u8));
    let mut k = digits.len();
    let ghost tail = Seq::new(
        digits@.len(),
        |i: int| digit_char(digits@[digits@.len() - 1 - i] as int),
    );
    proof {
        assert(tail.subrange(0, 0) =~= Seq::<char>::empty());
        assert(s@ =~= start + decimal(rest as nat) + tail.subrange(0, 0));
    }
    while k > 0
        invariant
            k <= digits@.len(),
            forall|i: int| 0 <= i < digits@.len() ==> #[trigger] digits@[i] <= 9,
            tail == Seq::new(
                digits@.len(),
                |i: int| digit_char(digits@[digits@.len() - 1 - i] as int),
            ),
            s@ == start + decimal(rest as nat) + tail.subrange(0, digits@.len() - k),
        decreases k,
    {
        k = k - 1;
        s.append(digit_str(digits[k]));
        proof {
            assert(tail.subrange(0, digits@.len() - k) =~= tail.subrange(
                0,
                digits@.len() - k - 1,
            ).push(digit_char(digits@[k as int] as int)));
            assert(s@ =~= start + decimal(rest as nat) + tail.subrange(0, digits@.len() - k));
        }
    }
    proof {
        assert(tail.subrange(0, digits@.len() as int) =~= tail);
        assert(s@ =~= start + decimal(n as nat));
        assert(decimal(rest as nat).len() == 1);
    }
    digits.len() + 1
}

proof fn lemma_pow10_19()
    ensures
        vstd::arithmetic::power::pow(10, 19) == 10000000000000000000,
{
    reveal_with_fuel(vstd::arithmetic::power::pow, 20);
}

/// A run of the body of a pattern.
#[derive(Clone, Copy, PartialEq, Eq, Debug, Structural)]
pub enum RleUnit {
    Dead,
    Alive,
    NextRow,
}

/// Text under construction, broken into lines of 70 characters at most.
pub struct RleWriter {
    pub text: String,
    /// The number of characters after the last line break.
    pub line_len: usize,
}

impl RleUnit {
    /// The tag of the run.
    pub open spec fn tag(&self) -> char {
        match self {
            RleUnit::Dead => 'b',
            RleUnit::Alive => 'o',
            RleUnit::NextRow => '$',
        }
    }

    /// The text of a run of this kind of length `num`: the count, unless it
    /// is one, and the tag.
    pub open spec fn text(&self, num: nat) -> Seq<char> {
        if num == 1 {
            seq![self.tag()]
        } else {
            decimal(num).push(self.tag())
        }
    }

    /// Appends a run of this kind of length `num`. The run goes to a new line
    /// if the line would grow beyond 70 characters.
    pub fn write(&self, num: u64, out: &mut RleWriter)
        requires
            old(out).line_len <= 70,
        ensures
            final(out).line_len <= 70,
            old(out).line_len + self.text(num as nat).len() > 70 ==> {
                &&& final(out).text@ == old(out).text@ + seq!['\n'] + self.text(num as nat)
                &&& final(out).line_len == self.text(num as nat).len()
            },
            old(out).line_len + self.text(num as nat).len() <= 70 ==> {
                &&& final(out).text@ == old(out).text@ + self.text(num as nat)
                &&& final(out).line_len == old(out).line_len + self.text(num as nat).len()
            },
    {
        proof {
            reveal_strlit("b");
            reveal_strlit("o");
            reveal_strlit("$");
            reveal_strlit("\n");
        }
        let c = match self {
            RleUnit::Dead => "b",
            RleUnit::Alive => "o",
            RleUnit::NextRow => "$",
        };
        let mut buf = String::from_str("");
        proof {
            reveal_strlit("");
            assert(buf@ =~= Seq::<char>::empty());
        }
        let mut len: usize = 1;
        if num != 1 {
            len = push_decimal(&mut buf, num) + 1;
        }
        buf.append(c);
        proof {
            assert(c@ =~= seq![self.tag()]);
            assert(buf@ =~= self.text(num as nat));
        }
        if out.line_len + len > 70 {
            out.text.append("\n");
            out.line_len = 0;
        }
        out.text.append(buf.as_str());
        out.line_len = out.line_len + len;
        proof {
            assert("\n"@ =~= seq!['\n']);
        }
    }
}

/// The header line of a pattern that is `w` cells wide and `h` cells high.
pub open spec fn header_text(w: nat, h: nat, rule: Rule) -> Seq<char> {
    seq!['x', ' ', '=', ' '] + decimal(w) + seq![',', ' ', 'y', ' ', '=', ' '] + decimal(h) + seq![
        ',',
        ' ',
        'r',
        'u',
        'l',
        'e',
        ' ',
        '=',
        ' ',
    ] + rule.spec_name() + seq!['\n']
}

/// The kind of run that a cell belongs to.
pub open spec fn unit_of(alive: bool) -> RleUnit {
    if alive {
        RleUnit::Alive
    } else {
        RleUnit::Dead
    }
}

/// The runs of a row of cells, from west to east: each run is as long as it
/// can be.
pub open spec fn runs(cells: Seq<bool>) -> Seq<(RleUnit, nat)>
    decreases cells.len(),
{
    if cells.len() == 0 {
        Seq::empty()
    } else {
        let before = runs(cells.drop_last());
        let u = unit_of(cells.last());
        if before.len() > 0 && before.last().0 == u {
            before.drop_last().push((u, before.last().1 + 1))
        } else {
            before.push((u, 1))
        }
    }
}

/// The runs of a row without the dead cells at its east end.
pub open spec fn trimmed(r: Seq<(RleUnit, nat)>) -> Seq<(RleUnit, nat)> {
    if r.len() > 0 && r.last().0 == RleUnit::Dead {
        r.drop_last()
    } else {
        r
    }
}

/// Row `y` of the box with the north-west corner `(left, top)`, `w` cells
/// wide.
pub open spec fn row_cells(s: Set<(int, int)>, left: int, top: int, w: nat, y: int) -> Seq<bool> {
    Seq::new(w, |x: int| s.contains((left + x, top + y)))
}

/// The runs of the first `n` rows of the box, and the number of row ends that
/// are still to be written after them. A row without live cells adds a row
/// end to those that wait; any other row is the row ends that wait, as one
/// run, and then its runs.
pub open spec fn body_runs(s: Set<(int, int)>, left: int, top: int, w: nat, n: nat) -> (
    Seq<(RleUnit, nat)>,
    nat,
)
    decreases n,
{
    if n == 0 {
        (Seq::empty(), 0)
    } else {
        let (t, p) = body_runs(s, left, top, w, (n - 1) as nat);
        let r = trimmed(runs(row_cells(s, left, top, w, n - 1)));
        if r.len() == 0 {
            (t, p + 1)
        } else if p > 0 {
            (t.push((RleUnit::NextRow, p)) + r, 1)
        } else {
            (t + r, 1)
        }
    }
}

/// The text that comes of appending the runs `tokens` to `text`, whose last
/// line is `line_len` characters long: a run goes to a new line where the
/// line would grow beyond 70 characters.
pub open spec fn layout(text: Seq<char>, line_len: nat, tokens: Seq<(RleUnit, nat)>) -> (
    Seq<char>,
    nat,
)
    decreases tokens.len(),
{
    if tokens.len() == 0 {
        (text, line_len)
    } else {
        let (t, l) = layout(text, line_len, tokens.drop_last());
        let run = tokens.last().0.text(tokens.last().1);
        if l + run.len() > 70 {
            (t + seq!['\n'] + run, run.len())
        } else {
            (t + run, l + run.len())
        }
    }
}

/// The pattern `s` as run-length encoded text: the header line, the runs of
/// the rows of the bounding box, and `!`.
pub open spec fn rle_text(s: Set<(int, int)>, rule: Rule) -> Seq<char> {
    let b = bounds(s);
    let w = (b.2 - b.0) as nat;
    let h = (b.3 - b.1) as nat;
    let (t, p) = body_runs(s, b.0, b.1, w, h);
    let tokens = if p > 1 {
        t.push((RleUnit::NextRow, (p - 1) as nat))
    } else {
        t
    };
    layout(header_text(w, h, rule), 0, tokens).0 + seq!['!', '\n']
}

/// Appends a run to the text of the runs `tokens`.
fn write_unit(
    unit: RleUnit,
    num: u64,
    out: &mut RleWriter,
    Ghost(head): Ghost<Seq<char>>,
    Ghost(tokens): Ghost<Seq<(RleUnit, nat)>>,
)
    requires
        old(out).line_len <= 70,
        (old(out).text@, old(out).line_len as nat) == layout(head, 0, tokens),
    ensures
        final(out).line_len <= 70,
        (final(out).text@, final(out).line_len as nat) == layout(
            head,
            0,
            tokens.push((unit, num as nat)),
        ),
{
    unit.write(num, out);
    proof {
        assert(tokens.push((unit, num as nat)).drop_last() =~= tokens);
    }
}

/// A run that goes on is the run before it, one cell longer; a run that
/// starts is a run of one cell.
proof fn lemma_runs_push(cells: Seq<bool>, c: bool)
    ensures
        runs(cells.push(c)) == (if runs(cells).len() > 0 && runs(cells).last().0 == unit_of(c) {
            runs(cells).drop_last().push((unit_of(c), runs(cells).last().1 + 1))
        } else {
            runs(cells).push((unit_of(c), 1))
        }),
{
    assert(cells.push(c).drop_last() =~= cells);
}

/// Writes the pattern of the universe as run-length encoded text: the header
/// line with the size of the bounding box and the rule, then the rows of the
/// bounding box from north to south as runs, and `!`. Dead cells at the east
/// end of a row are left out, rows without live cells are folded into the
/// count of row ends, and lines are broken after 70 characters at most.
#[verifier::rlimit(50)]
pub fn write(univ: &Universe) -> (r: Result<String, ExportError>)
    requires
        univ.wf(),
    ensures
        match r {
            Ok(text) => !is_empty_grid(univ.cells()) && text@ == rle_text(
                univ.cells(),
                univ.spec_rule(),
            ),
            Err(ExportError::EmptyUniverse) => is_empty_grid(univ.cells()),
            Err(ExportError::TooLarge) => {
                let b = bounds(univ.cells());
                &&& !is_empty_grid(univ.cells())
                &&& (b.3 - b.1 > usize::MAX || row_bytes(b.2 - b.0) > usize::MAX)
            },
        },
{
    let ghost cells = univ.cells();
    let (left, top, right, bottom) = univ.boundary();
    proof {
        lemma_bounds(cells, (left as int, top as int, right as int, bottom as int));
    }
    let data = match write_buffer(univ) {
        Ok(data) => data,
        Err(e) => {
            return Err(e);
        },
    };
    proof {
        let p = choose|p: (int, int)| #[trigger] cells.contains(p) && p.0 == left;
        let q = choose|p: (int, int)| #[trigger] cells.contains(p) && p.1 == top;
        assert(cells.contains(p) && cells.contains(q));
    }
    let width: u64 = (right as i128 - left as i128) as u64;
    let height: u64 = (bottom as i128 - top as i128) as u64;
    let ghost head = header_text(width as nat, height as nat, univ.spec_rule());
    proof {
        reveal_strlit("x = ");
        reveal_strlit(", y = ");
        reveal_strlit(", rule = ");
        reveal_strlit("\n");
        reveal_strlit("!\n");
    }
    let mut text = String::from_str("x = ");
    let _ = push_decimal(&mut text, width);
    text.append(", y = ");
    let _ = push_decimal(&mut text, height);
    text.append(", rule = ");
    let name = univ.rule().to_string();
    text.append(name.as_str());
    text.append("\n");
    proof {
        assert("x = "@ =~= seq!['x', ' ', '=', ' ']);
        assert(", y = "@ =~= seq![',', ' ', 'y', ' ', '=', ' ']);
        assert(", rule = "@ =~= seq![',', ' ', 'r', 'u', 'l', 'e', ' ', '=', ' ']);
        assert("\n"@ =~= seq!['\n']);
        assert(text@ =~= head);
    }
    let mut out = RleWriter { text, line_len: 0 };
    let ghost mut emitted: Seq<(RleUnit, nat)> = Seq::empty();
    let mut next_rows: u64 = 0;
    let mut y: usize = 0;
    while y < data.len()
        invariant
            y <= data@.len(),
            data@.len() == height,
            width >= 1,
            buffer_shows(data@, cells, left as int, top as int, width as int, height as int),
            out.line_len <= 70,
            (out.text@, out.line_len as nat) == layout(head, 0, emitted),
            (emitted, next_rows as nat) == body_runs(
                cells,
                left as int,
                top as int,
                width as nat,
                y as nat,
            ),
            next_rows <= y,
        decreases data@.len() - y,
    {
        let ghost row = row_cells(cells, left as int, top as int, width as nat, y as int);
        let ghost before = emitted;
        let ghost waiting = next_rows;
        let ghost lead = if waiting > 0 {
            before.push((RleUnit::NextRow, waiting as nat))
        } else {
            before
        };
        let mut unit: Option<RleUnit> = None;
        let mut num_unit: u64 = 0;
        let mut x: u64 = 0;
        proof {
            assert(data@[y as int]@.len() == row_bytes(width as int));
            assert(row.take(0) =~= Seq::<bool>::empty());
        }
        while x < width
            invariant
                x <= width,
                y < data@.len(),
                data@.len() == height,
                data@[y as int]@.len() == row_bytes(width as int),
                buffer_shows(data@, cells, left as int, top as int, width as int, height as int),
                row == row_cells(cells, left as int, top as int, width as nat, y as int),
                lead == (if waiting > 0 {
                    before.push((RleUnit::NextRow, waiting as nat))
                } else {
                    before
                }),
                waiting <= y,
                out.line_len <= 70,
                (out.text@, out.line_len as nat) == layout(head, 0, emitted),
                x == 0 ==> unit is None && num_unit == 0 && emitted == before && next_rows
                    == waiting,
                x > 0 ==> {
                    let r = runs(row.take(x as int));
                    &&& r.len() >= 1
                    &&& unit == Some(r.last().0)
                    &&& num_unit == r.last().1
                    &&& 1 <= num_unit <= x
                    &&& r.len() == 1 ==> emitted == before && next_rows == waiting && num_unit
                        == x
                    &&& r.len() > 1 ==> emitted == lead + r.drop_last() && next_rows == 0
                        && num_unit < x
                },
            decreases width - x,
        {
            let row_len = data[y].len();
            proof {
                assert(x / 8 < row_bytes(width as int));
                assert(x / 8 < row_len);
            }
            let bx: usize = (x / 8) as usize;
            let shift: u8 = (7 - x % 8) as u8;
            let byte = data[y][bx];
            let alive = (byte >> shift) & 1u8 == 1u8;
            proof {
                assert(bx as int == x as int / 8);
                assert(shift as int == 7 - x as int % 8);
                assert(byte == data@[y as int]@[x as int / 8]);
                assert(alive == bit8(data@[y as int]@[x as int / 8], 7 - x as int % 8));
                assert(alive == cells.contains((left + x, top + y)));
                assert(row[x as int] == alive);
                assert(row.take(x + 1) =~= row.take(x as int).push(alive));
                lemma_runs_push(row.take(x as int), alive);
            }
            let new_unit = if alive {
                RleUnit::Alive
            } else {
                RleUnit::Dead
            };
            let same = match unit {
                Some(u) => u == new_unit,
                None => false,
            };
            let ghost r = runs(row.take(x as int));
            if !same {
                match unit {
                    Some(u) => {
                        if next_rows > 0 {
                            write_unit(
                                RleUnit::NextRow,
                                next_rows,
                                &mut out,
                                Ghost(head),
                                Ghost(emitted),
                            );
                            proof {
                                emitted = emitted.push((RleUnit::NextRow, next_rows as nat));
                            }
                            next_rows = 0;
                        }
                        write_unit(u, num_unit, &mut out, Ghost(head), Ghost(emitted));
                        proof {
                            emitted = emitted.push((u, num_unit as nat));
                            assert(emitted =~= lead + r);
                            assert(r.push((unit_of(alive), 1)).drop_last() =~= r);
                        }
                        num_unit = 0;
                    },
                    None => {
                        proof {
                            assert(r =~= Seq::<(RleUnit, nat)>::empty());
                        }
                    },
                }
                unit = Some(new_unit);
            } else {
                proof {
                    let grown = r.drop_last().push((unit_of(alive), r.last().1 + 1));
                    assert(grown.drop_last() =~= r.drop_last());
                }
            }
            num_unit = num_unit + 1;
            x = x + 1;
        }
        proof {
            assert(row.take(width as int) =~= row);
        }
        let ghost r = runs(row);
        let all_dead = match unit {
            Some(u) => u == RleUnit::Dead && num_unit == width,
            None => false,
        };
        if all_dead {
            proof {
                assert(trimmed(r) =~= Seq::<(RleUnit, nat)>::empty());
            }
            next_rows = next_rows + 1;
        } else {
            if next_rows > 0 {
                write_unit(RleUnit::NextRow, next_rows, &mut out, Ghost(head), Ghost(emitted));
                proof {
                    emitted = emitted.push((RleUnit::NextRow, next_rows as nat));
                }
            }
            proof {
                assert(emitted =~= lead + r.drop_last());
            }
            match unit {
                Some(u) => {
                    if u != RleUnit::Dead {
                        write_unit(u, num_unit, &mut out, Ghost(head), Ghost(emitted));
                        proof {
                            emitted = emitted.push((u, num_unit as nat));
                            assert(r.drop_last().push(r.last()) =~= r);
                            assert(emitted =~= lead + r);
                        }
                    }
                },
                None => {},
            }
            proof {
                assert(trimmed(r).len() > 0);
                assert(emitted =~= lead + trimmed(r));
            }
            next_rows = 1;
        }
        y = y + 1;
    }
    if next_rows > 1 {
        write_unit(RleUnit::NextRow, next_rows - 1, &mut out, Ghost(head), Ghost(emitted));
    }
    let mut text = out.text;
    text.append("!\n");
    proof {
        assert("!\n"@ =~= seq!['!', '\n']);
    }
    Ok(text)
}

} // verus!
