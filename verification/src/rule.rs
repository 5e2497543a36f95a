//! Birth and survival rules of Life-like automata.

use crate::bits::{bit16, lemma_mask_set};
use vstd::prelude::*;
use vstd::string::{StringExecFns, StringSliceAdditionalSpecFns};

verus! {

/// Why a rule was refused.
#[derive(Clone, Copy, PartialEq, Eq, Debug, Structural)]
pub enum RuleError {
    /// A neighbour count above eight, or a name that is not of the form
    /// `B<digits>/S<digits>`.
    MalformedRule,
    /// Birth on zero neighbours: an empty universe would not stay empty.
    B0NotAllowed,
}

/// A rule: bit `k` of `birth` says that a dead cell with exactly `k` live
/// neighbours becomes alive, bit `k` of `survival` that a live cell with
/// exactly `k` live neighbours stays alive.
#[derive(Clone, Copy, Debug)]
pub struct Rule {
    birth: u16,
    survival: u16,
}

proof fn lemma_mask_bound(m: u16, k: u16)
    by (bit_vector)
    requires
        m < 512,
        k < 9,
    ensures
        m | (1u16 << k) < 512,
        (0u16 >> k) & 1u16 == 0u16,
{
}

impl Rule {
    pub closed spec fn birth_mask(&self) -> u16 {
        self.birth
    }

    pub closed spec fn survival_mask(&self) -> u16 {
        self.survival
    }

    /// Both masks speak of neighbour counts 0 to 8 only, and no cell is born
    /// without neighbours.
    pub open spec fn wf(&self) -> bool {
        &&& self.birth_mask() < 512
        &&& self.survival_mask() < 512
        &&& !bit16(self.birth_mask(), 0)
    }

    /// A dead cell with `n` live neighbours becomes alive.
    pub open spec fn born(&self, n: int) -> bool {
        0 <= n <= 8 && bit16(self.birth_mask(), n)
    }

    /// A live cell with `n` live neighbours stays alive.
    pub open spec fn survives(&self, n: int) -> bool {
        0 <= n <= 8 && bit16(self.survival_mask(), n)
    }

    /// The state of a cell in the next generation.
    pub open spec fn spec_next_state(&self, alive: bool, n: int) -> bool {
        if alive {
            self.survives(n)
        } else {
            self.born(n)
        }
    }

    /// The rule under which nothing is born and nothing survives.
    pub fn new() -> (rule: Rule)
        ensures
            rule.wf(),
            rule.birth_mask() == 0,
            rule.survival_mask() == 0,
            forall|n: int| !rule.born(n) && !rule.survives(n),
    {
        let rule = Rule { birth: 0, survival: 0 };
        proof {
            assert forall|n: int| !rule.born(n) && !rule.survives(n) by {
                if 0 <= n <= 8 {
                    lemma_mask_bound(0, n as u16);
                }
            }
            lemma_mask_bound(0, 0);
        }
        rule
    }

    /// Conway's Game of Life, B3/S23.
    pub fn game_of_life() -> (rule: Rule)
        ensures
            rule.wf(),
            rule.birth_mask() == 8,
            rule.survival_mask() == 12,
            forall|n: int| rule.born(n) == (n == 3),
            forall|n: int| rule.survives(n) == (n == 2 || n == 3),
    {
        let mut rule = Rule::new();
        let ghost r0 = rule;
        let _ = rule.set_birth(3);
        let ghost r1 = rule;
        let _ = rule.set_survival(2);
        let ghost r2 = rule;
        let _ = rule.set_survival(3);
        proof {
            assert(0u16 | (1u16 << 3u16) == 8u16) by (bit_vector);
            assert((0u16 | (1u16 << 2u16)) | (1u16 << 3u16) == 12u16) by (bit_vector);
            assert forall|n: int| rule.born(n) == (n == 3) by {
                assert(!r0.born(n));
                assert(r1.born(n) == (r0.born(n) || n == 3));
            }
            assert forall|n: int| rule.survives(n) == (n == 2 || n == 3) by {
                assert(!r0.survives(n));
                assert(r2.survives(n) == (r1.survives(n) || n == 2));
                assert(rule.survives(n) == (r2.survives(n) || n == 3));
            }
        }
        rule
    }

    /// The birth mask.
    pub fn birth(&self) -> (m: u16)
        ensures
            m == self.birth_mask(),
    {
        self.birth
    }

    /// The survival mask.
    pub fn survival(&self) -> (m: u16)
        ensures
            m == self.survival_mask(),
    {
        self.survival
    }

    /// Lets dead cells with `num` live neighbours be born. Counts above eight
    /// are refused, and so is zero.
    pub fn set_birth(&mut self, num: u8) -> (r: Result<(), RuleError>)
        requires
            old(self).wf(),
        ensures
            final(self).wf(),
            final(self).survival_mask() == old(self).survival_mask(),
            r is Ok <==> 1 <= num <= 8,
            r is Err ==> r->Err_0 == (if num == 0 {
                RuleError::B0NotAllowed
            } else {
                RuleError::MalformedRule
            }),
            r is Err ==> *final(self) == *old(self),
            r is Ok ==> final(self).birth_mask() == old(self).birth_mask() | (1u16 << (num as u16)),
            r is Ok ==> forall|n: int| final(self).born(n) == (old(self).born(n) || n == num),
    {
        if num > 8 {
            return Err(RuleError::MalformedRule);
        }
        if num == 0 {
            return Err(RuleError::B0NotAllowed);
        }
        let ghost before = self.birth;
        self.birth = self.birth | (1u16 << (num as u16));
        proof {
            lemma_mask_bound(before, num as u16);
            lemma_mask_set(before, num as u16, 0);
            assert forall|n: int| self.born(n) == (old(self).born(n) || n == num) by {
                if 0 <= n <= 8 {
                    lemma_mask_set(before, num as u16, n as u16);
                }
            }
        }
        Ok(())
    }

    /// Lets live cells with `num` live neighbours survive. Counts above eight
    /// are refused.
    pub fn set_survival(&mut self, num: u8) -> (r: Result<(), RuleError>)
        requires
            old(self).wf(),
        ensures
            final(self).wf(),
            final(self).birth_mask() == old(self).birth_mask(),
            r is Ok <==> num <= 8,
            r is Err ==> r->Err_0 == RuleError::MalformedRule,
            r is Err ==> *final(self) == *old(self),
            r is Ok ==> final(self).survival_mask() == old(self).survival_mask() | (1u16 << (
            num as u16)),
            r is Ok ==> forall|n: int|
                final(self).survives(n) == (old(self).survives(n) || n == num),
    {
        if num > 8 {
            return Err(RuleError::MalformedRule);
        }
        let ghost before = self.survival;
        self.survival = self.survival | (1u16 << (num as u16));
        proof {
            lemma_mask_bound(before, num as u16);
            assert forall|n: int| self.survives(n) == (old(self).survives(n) || n == num) by {
                if 0 <= n <= 8 {
                    lemma_mask_set(before, num as u16, n as u16);
                }
            }
        }
        Ok(())
    }

    /// The state in the next generation of a cell that is `alive` now and has
    /// `count` live neighbours.
    #[verifier::when_used_as_spec(spec_next_state_u16)]
    pub fn next_state(&self, alive: bool, count: u16) -> (next: bool)
        requires
            count <= 8,
        ensures
            next == self.spec_next_state(alive, count as int),
    {
        let mask = if alive {
            self.survival
        } else {
            self.birth
        };
        (mask >> count) & 1u16 == 1u16
    }

    pub open spec fn spec_next_state_u16(&self, alive: bool, count: u16) -> bool {
        self.spec_next_state(alive, count as int)
    }
}

/// The character of the digit `k`.
pub open spec fn digit_char(k: int) -> char {
    if k == 0 {
        '0'
    } else if k == 1 {
        '1'
    } else if k == 2 {
        '2'
    } else if k == 3 {
        '3'
    } else if k == 4 {
        '4'
    } else if k == 5 {
        '5'
    } else if k == 6 {
        '6'
    } else if k == 7 {
        '7'
    } else if k == 8 {
        '8'
    } else {
        '9'
    }
}

/// The digits below `upto` whose bit is set in `mask`, in ascending order.
pub open spec fn mask_digits(mask: u16, upto: int) -> Seq<char>
    decreases upto,
{
    if upto <= 0 {
        Seq::empty()
    } else if bit16(mask, upto - 1) {
        mask_digits(mask, upto - 1).push(digit_char(upto - 1))
    } else {
        mask_digits(mask, upto - 1)
    }
}

/// The digit `k` as a string.
pub fn digit_str(k: u8) -> (s: &'static str)
    requires
        k <= 9,
    ensures
        s@ == seq![digit_char(k as int)],
{
    proof {
        reveal_strlit("0");
        reveal_strlit("1");
        reveal_strlit("2");
        reveal_strlit("3");
        reveal_strlit("4");
        reveal_strlit("5");
        reveal_strlit("6");
        reveal_strlit("7");
        reveal_strlit("8");
        reveal_strlit("9");
    }
    let s = if k == 0 {
        "0"
    } else if k == 1 {
        "1"
    } else if k == 2 {
        "2"
    } else if k == 3 {
        "3"
    } else if k == 4 {
        "4"
    } else if k == 5 {
        "5"
    } else if k == 6 {
        "6"
    } else if k == 7 {
        "7"
    } else if k == 8 {
        "8"
    } else {
        "9"
    };
    assert(s@ =~= seq![digit_char(k as int)]);
    s
}

/// Appends to `s` the digits whose bit is set in `mask`, in ascending order.
fn push_digits(s: &mut String, mask: u16)
    ensures
        final(s)@ == old(s)@ + mask_digits(mask, 9),
{
    let mut k: u8 = 0;
    let ghost start = s@;
    while k < 9
        invariant
            k <= 9,
            s@ == start + mask_digits(mask, k as int),
        decreases 9 - k,
    {
        if (mask >> (k as u16)) & 1u16 == 1u16 {
            s.append(digit_str(k));
            proof {
                assert(s@ =~= start + mask_digits(mask, k + 1));
            }
        }
        k = k + 1;
    }
}

/// The lower-case letter of an upper-case letter, any other byte as it is.
pub open spec fn lower(c: u8) -> u8 {
    if 65 <= c <= 90 {
        (c + 32) as u8
    } else {
        c
    }
}

/// The position of the first `/` in `s`, or the length of `s`.
pub open spec fn first_slash(s: Seq<u8>) -> int
    decreases s.len(),
{
    if s.len() == 0 {
        0
    } else if s[0] == 47 {
        0
    } else {
        1 + first_slash(s.drop_first())
    }
}

/// What is wrong with the first digit of `d` that is no neighbour count, or
/// that is a zero where a zero is not allowed.
pub open spec fn digits_error(d: Seq<u8>, birth: bool) -> Option<RuleError>
    decreases d.len(),
{
    if d.len() == 0 {
        None
    } else if !(48 <= d[0] <= 56) {
        Some(RuleError::MalformedRule)
    } else if birth && d[0] == 48 {
        Some(RuleError::B0NotAllowed)
    } else {
        digits_error(d.drop_first(), birth)
    }
}

/// The mask with the bits of the digits of `d`.
pub open spec fn digits_mask(d: Seq<u8>) -> u16
    decreases d.len(),
{
    if d.len() == 0 {
        0
    } else {
        digits_mask(d.drop_last()) | (1u16 << ((d.last() - 48) as u16))
    }
}

/// The name has the shape `B.../S...`: one `/`, a `b` or `B` before it first
/// thing, an `s` or `S` after it first thing.
pub open spec fn name_shape(s: Seq<u8>) -> bool {
    let i = first_slash(s);
    &&& 1 <= i < s.len()
    &&& first_slash(s.subrange(i + 1, s.len() as int)) == s.len() - i - 1
    &&& lower(s[0]) == 98
    &&& i + 1 < s.len()
    &&& lower(s[i + 1]) == 115
}

/// The birth and survival masks that the name `s` stands for, or what is
/// wrong with it: its shape, or else the first digit in it that is no
/// neighbour count or asks for birth without neighbours.
pub open spec fn parse_rule_spec(s: Seq<u8>) -> Result<(u16, u16), RuleError> {
    if !name_shape(s) {
        Err(RuleError::MalformedRule)
    } else {
        let i = first_slash(s);
        let birth = s.subrange(1, i);
        let survival = s.subrange(i + 2, s.len() as int);
        match digits_error(birth, true) {
            Some(e) => Err(e),
            None => match digits_error(survival, false) {
                Some(e) => Err(e),
                None => Ok((digits_mask(birth), digits_mask(survival))),
            },
        }
    }
}

/// The position of the first `/` in `s` from `from` on, or the length of `s`.
fn find_slash(s: &[u8], from: usize) -> (i: usize)
    requires
        from <= s@.len(),
    ensures
        from <= i <= s@.len(),
        i - from == first_slash(s@.subrange(from as int, s@.len() as int)),
    decreases s@.len() - from,
{
    if from == s.len() {
        from
    } else if s[from] == 47 {
        from
    } else {
        let i = find_slash(s, from + 1);
        proof {
            let t = s@.subrange(from as int, s@.len() as int);
            assert(t.drop_first() =~= s@.subrange(from + 1, s@.len() as int));
        }
        i
    }
}

impl Rule {
    /// The name of the rule: `B`, the neighbour counts of birth in ascending
    /// order, `/S`, the neighbour counts of survival in ascending order.
    pub open spec fn spec_name(&self) -> Seq<char> {
        seq!['B'] + mask_digits(self.birth_mask(), 9) + seq!['/', 'S'] + mask_digits(
            self.survival_mask(),
            9,
        )
    }

    /// The name of the rule, such as `B3/S23`.
    pub fn to_string(&self) -> (s: String)
        ensures
            s@ == self.spec_name(),
    {
        proof {
            reveal_strlit("B");
            reveal_strlit("/S");
        }
        let mut s = String::from_str("B");
        push_digits(&mut s, self.birth);
        s.append("/S");
        push_digits(&mut s, self.survival);
        proof {
            assert("B"@ =~= seq!['B']);
            assert("/S"@ =~= seq!['/', 'S']);
        }
        s
    }

    /// Sets the bits of the digits `s[from..to]` in the birth mask, or in the
    /// survival mask.
    fn set_digits(&mut self, s: &[u8], from: usize, to: usize, birth: bool) -> (r: Result<
        (),
        RuleError,
    >)
        requires
            old(self).wf(),
            from <= to <= s@.len(),
        ensures
            final(self).wf(),
            match digits_error(s@.subrange(from as int, to as int), birth) {
                Some(e) => r == Err::<(), RuleError>(e),
                None => {
                    &&& r is Ok
                    &&& birth ==> final(self).birth_mask() == old(self).birth_mask() | digits_mask(
                        s@.subrange(from as int, to as int),
                    ) && final(self).survival_mask() == old(self).survival_mask()
                    &&& !birth ==> final(self).survival_mask() == old(self).survival_mask()
                        | digits_mask(s@.subrange(from as int, to as int))
                    &&& !birth ==> final(self).birth_mask() == old(self).birth_mask()
                },
            },
    {
        let ghost d = s@.subrange(from as int, to as int);
        let mut i = from;
        proof {
            assert(d.subrange(0, 0) =~= Seq::<u8>::empty());
            lemma_or_zero(self.birth);
            lemma_or_zero(self.survival);
            assert(d.subrange(0, d.len() as int) =~= d);
        }
        while i < to
            invariant
                from <= i <= to <= s@.len(),
                d == s@.subrange(from as int, to as int),
                self.wf(),
                digits_error(d, birth) == digits_error(d.subrange(i - from, d.len() as int), birth),
                digits_error(d.subrange(0, i - from), birth) is None,
                birth ==> self.birth_mask() == old(self).birth_mask() | digits_mask(
                    d.subrange(0, i - from),
                ) && self.survival_mask() == old(self).survival_mask(),
                !birth ==> self.survival_mask() == old(self).survival_mask() | digits_mask(
                    d.subrange(0, i - from),
                ) && self.birth_mask() == old(self).birth_mask(),
            decreases to - i,
        {
            let c = s[i];
            let ghost rest = d.subrange(i - from, d.len() as int);
            proof {
                assert(rest[0] == c);
                assert(rest.drop_first() =~= d.subrange(i + 1 - from, d.len() as int));
            }
            if c < 48 || c > 56 {
                return Err(RuleError::MalformedRule);
            }
            let ghost before = *self;
            let r = if birth {
                self.set_birth(c - 48)
            } else {
                self.set_survival(c - 48)
            };
            match r {
                Err(e) => {
                    return Err(e);
                },
                Ok(_) => {},
            }
            proof {
                let seen = d.subrange(0, i + 1 - from);
                assert(seen.drop_last() =~= d.subrange(0, i - from));
                assert(seen.last() == c);
                assert(seen =~= d.subrange(0, i - from).push(c));
                lemma_digits_error_push(d.subrange(0, i - from), c, birth);
                lemma_or_assoc(
                    if birth {
                        old(self).birth_mask()
                    } else {
                        old(self).survival_mask()
                    },
                    digits_mask(d.subrange(0, i - from)),
                    1u16 << ((c - 48) as u16),
                );
            }
            i = i + 1;
        }
        proof {
            assert(d.subrange(i - from, d.len() as int) =~= Seq::<u8>::empty());
            assert(d.subrange(0, i - from) =~= d);
        }
        Ok(())
    }
}

proof fn lemma_or_zero(m: u16)
    by (bit_vector)
    ensures
        m | 0u16 == m,
{
}

proof fn lemma_or_assoc(a: u16, b: u16, c: u16)
    by (bit_vector)
    ensures
        (a | b) | c == a | (b | c),
{
}

proof fn lemma_digits_error_push(d: Seq<u8>, c: u8, birth: bool)
    requires
        digits_error(d, birth) is None,
        48 <= c <= 56,
        !(birth && c == 48),
    ensures
        digits_error(d.push(c), birth) is None,
    decreases d.len(),
{
    reveal_with_fuel(digits_error, 2);
    let e = d.push(c);
    if d.len() == 0 {
        assert(e.drop_first() =~= Seq::<u8>::empty());
        assert(e[0] == c);
    } else {
        lemma_digits_error_push(d.drop_first(), c, birth);
        assert(e.drop_first() =~= d.drop_first().push(c));
        assert(e[0] == d[0]);
    }
}

/// The rule with the given name, of the form `B<digits>/S<digits>`; the
/// letters may be in lower case.
pub fn parse_rule_bytes(s: &[u8]) -> (r: Result<Rule, RuleError>)
    ensures
        match parse_rule_spec(s@) {
            Ok(masks) => r is Ok && r->Ok_0.wf() && r->Ok_0.birth_mask() == masks.0
                && r->Ok_0.survival_mask() == masks.1,
            Err(e) => r == Err::<Rule, RuleError>(e),
        },
{
    let i = find_slash(s, 0);
    proof {
        assert(s@.subrange(0, s@.len() as int) =~= s@);
    }
    if i < 1 || i >= s.len() {
        return Err(RuleError::MalformedRule);
    }
    let j = find_slash(s, i + 1);
    if j != s.len() || i + 1 >= s.len() {
        return Err(RuleError::MalformedRule);
    }
    let b = s[0];
    let v = s[i + 1];
    if !(b == 98 || b == 66) || !(v == 115 || v == 83) {
        return Err(RuleError::MalformedRule);
    }
    let mut rule = Rule::new();
    proof {
        lemma_zero_or(digits_mask(s@.subrange(1, i as int)));
        lemma_zero_or(digits_mask(s@.subrange(i + 2, s@.len() as int)));
    }
    match rule.set_digits(s, 1, i, true) {
        Err(e) => {
            return Err(e);
        },
        Ok(_) => {},
    }
    match rule.set_digits(s, i + 2, s.len(), false) {
        Err(e) => {
            return Err(e);
        },
        Ok(_) => {},
    }
    Ok(rule)
}

proof fn lemma_zero_or(m: u16)
    by (bit_vector)
    ensures
        0u16 | m == m,
{
}

/// The rule with the given name, of the form `B<digits>/S<digits>`.
pub fn parse_rule(s: &str) -> (r: Result<Rule, RuleError>)
    ensures
        match parse_rule_spec(s.spec_bytes()) {
            Ok(masks) => r is Ok && r->Ok_0.wf() && r->Ok_0.birth_mask() == masks.0
                && r->Ok_0.survival_mask() == masks.1,
            Err(e) => r == Err::<Rule, RuleError>(e),
        },
{
    parse_rule_bytes(s.as_bytes())
}

} // verus!
