//! One archive's precision and retention, and the grammar that names them:
//! `<amount>[unit]:<amount>[unit]`, with units s, m, h, d, w, y. Without a
//! unit the first amount is in seconds and the second is a count of points.
use vstd::prelude::*;
use vstd::string::*;

use crate::codec::{push_u32, u32_bytes};
use crate::errors::SchemaError;
use crate::point::POINT_SIZE;

verus! {

pub open spec fn is_digit(c: char) -> bool {
    '0' <= c && c <= '9'
}

/// Seconds in one of the unit letters; zero for any other character.
pub open spec fn unit_seconds(c: char) -> int {
    if c == 's' {
        1
    } else if c == 'm' {
        60
    } else if c == 'h' {
        3600
    } else if c == 'd' {
        86400
    } else if c == 'w' {
        604800
    } else if c == 'y' {
        31536000
    } else {
        0
    }
}

pub open spec fn is_unit(c: char) -> bool {
    unit_seconds(c) > 0
}

pub open spec fn all_digits(s: Seq<char>) -> bool {
    s.len() > 0 && forall|i: int| 0 <= i < s.len() ==> is_digit(#[trigger] s[i])
}

/// The term ends in a unit letter.
pub open spec fn has_unit(t: Seq<char>) -> bool {
    t.len() > 0 && is_unit(t.last())
}

/// The digits of a term, without its unit letter.
pub open spec fn amount(t: Seq<char>) -> Seq<char> {
    if has_unit(t) {
        t.drop_last()
    } else {
        t
    }
}

/// One or more digits, then at most one unit letter.
pub open spec fn is_term(t: Seq<char>) -> bool {
    all_digits(amount(t))
}

/// `s` is a precision term, a colon at `i`, and a retention term.
pub open spec fn colon_at(s: Seq<char>, i: int) -> bool {
    &&& 0 <= i < s.len()
    &&& s[i] == ':'
    &&& is_term(s.subrange(0, i))
    &&& is_term(s.subrange(i + 1, s.len() as int))
}

/// `s` is written in the retention grammar.
pub open spec fn well_formed_spec(s: Seq<char>) -> bool {
    exists|i: int| colon_at(s, i)
}

pub open spec fn spec_colon(s: Seq<char>) -> int {
    choose|i: int| colon_at(s, i)
}

pub open spec fn precision_term(s: Seq<char>) -> Seq<char> {
    s.subrange(0, spec_colon(s))
}

pub open spec fn retention_term(s: Seq<char>) -> Seq<char> {
    s.subrange(spec_colon(s) + 1, s.len() as int)
}

/// The number that a string of decimal digits denotes.
pub open spec fn digits_value(d: Seq<char>) -> nat
    decreases d.len(),
{
    if d.len() == 0 {
        0
    } else {
        digits_value(d.drop_last()) * 10 + (d.last() as nat - '0' as nat) as nat
    }
}

/// Precision in seconds: the amount times its unit, seconds by default.
pub open spec fn precision_seconds(s: Seq<char>) -> int {
    let t = precision_term(s);
    digits_value(amount(t)) * if has_unit(t) {
        unit_seconds(t.last())
    } else {
        1
    }
}

/// Retention in seconds: the amount times its unit or, without a unit, a
/// number of points times the precision.
pub open spec fn retention_seconds(s: Seq<char>) -> int {
    let t = retention_term(s);
    digits_value(amount(t)) * if has_unit(t) {
        unit_seconds(t.last())
    } else {
        precision_seconds(s)
    }
}

pub open spec fn invalid_format_message(s: Seq<char>) -> Seq<char> {
    "Policy '"@ + s + "' is in an invalid format"@
}

/// The reason given when an amount `digits` of `s` does not fit in a `u32`
/// once its unit is applied; `lead` names the field.
pub open spec fn too_large_message(lead: Seq<char>, digits: Seq<char>, s: Seq<char>) -> Seq<char> {
    lead + digits + "' in policy '"@ + s
        + "' as u32\nCaused by: number too large to fit in target type"@
}

pub open spec fn unknown_unit_message(u: Seq<char>) -> Seq<char> {
    "Unrecognized time multiplier specified: '"@ + u + "'"@
}

/// What reading `s` gives: the policy, or the reason it is refused.
pub open spec fn parse_outcome(s: Seq<char>) -> Result<(u32, u32), Seq<char>> {
    if !well_formed_spec(s) {
        Err(invalid_format_message(s))
    } else if precision_seconds(s) > u32::MAX {
        Err(too_large_message("Unable to parse precision '"@, amount(precision_term(s)), s))
    } else if digits_value(amount(retention_term(s))) > u32::MAX || retention_seconds(s)
        > u32::MAX {
        Err(too_large_message("Unable to parse retention '"@, amount(retention_term(s)), s))
    } else {
        Ok((precision_seconds(s) as u32, retention_seconds(s) as u32))
    }
}

/// A term can hold no colon, so the colon of a well-formed spec is unique.
proof fn lemma_colon_unique(s: Seq<char>, i: int, j: int)
    requires
        colon_at(s, i),
        colon_at(s, j),
    ensures
        i == j,
{
    if i < j {
        let t = s.subrange(0, j);
        assert(t[i] == ':');
        if has_unit(t) && i == t.len() - 1 {
            assert(is_unit(t.last()));
        } else {
            assert(amount(t)[i] == t[i]);
        }
    } else if j < i {
        let t = s.subrange(0, i);
        assert(t[j] == ':');
        if has_unit(t) && j == t.len() - 1 {
            assert(is_unit(t.last()));
        } else {
            assert(amount(t)[j] == t[j]);
        }
    }
}

/// A spec that reads successfully gives back its amounts. A retention
/// without a unit is that many points of the precision, hence a whole
/// multiple of it; one with a unit is that many units.
pub proof fn lemma_parse_round_trip(s: Seq<char>)
    requires
        parse_outcome(s) is Ok,
    ensures
        ({
            let (p, q) = parse_outcome(s)->Ok_0;
            let pt = precision_term(s);
            let rt = retention_term(s);
            &&& p == digits_value(amount(pt)) * if has_unit(pt) {
                unit_seconds(pt.last())
            } else {
                1
            }
            &&& !has_unit(rt) ==> q == p * digits_value(amount(rt))
            &&& !has_unit(rt) && p > 0 ==> q % p == 0
            &&& has_unit(rt) ==> q == digits_value(amount(rt)) * unit_seconds(rt.last())
        }),
{
    let (p, q) = parse_outcome(s)->Ok_0;
    let rt = retention_term(s);
    if !has_unit(rt) {
        let k = digits_value(amount(rt)) as int;
        assert(q == k * p);
        if p > 0 {
            vstd::arithmetic::div_mod::lemma_mod_multiples_basic(k, p as int);
        }
    }
}

/// A term made of digits `d` and an optional unit letter `u`.
proof fn lemma_term_parts(d: Seq<char>, u: Seq<char>)
    requires
        all_digits(d),
        u.len() <= 1,
        u.len() == 1 ==> is_unit(u[0]),
    ensures
        is_term(d + u),
        has_unit(d + u) <==> u.len() == 1,
        amount(d + u) == d,
        u.len() == 1 ==> (d + u).last() == u[0],
{
    let t = d + u;
    if u.len() == 1 {
        assert(t.last() == u[0]);
        assert(t.drop_last() =~= d);
    } else {
        assert(t =~= d);
        assert(is_digit(d[d.len() - 1]));
    }
}

/// A spec written as `<digits>[unit]:<digits>[unit]` reads as its amounts.
/// The precision is its count times its unit, seconds by default. The
/// retention is its count times its unit or, without a unit, that many
/// points of the precision, hence a whole multiple of it. The spec is
/// refused exactly when a count or a product does not fit in a `u32`.
pub proof fn lemma_parse_spec_form(d1: Seq<char>, u1: Seq<char>, d3: Seq<char>, u3: Seq<char>)
    requires
        all_digits(d1),
        all_digits(d3),
        u1.len() <= 1,
        u3.len() <= 1,
        u1.len() == 1 ==> is_unit(u1[0]),
        u3.len() == 1 ==> is_unit(u3[0]),
    ensures
        ({
            let s = d1 + u1 + seq![':'] + d3 + u3;
            let p = digits_value(d1) * if u1.len() == 1 {
                unit_seconds(u1[0])
            } else {
                1
            };
            let q = digits_value(d3) * if u3.len() == 1 {
                unit_seconds(u3[0])
            } else {
                p
            };
            let fits = p <= u32::MAX && digits_value(d3) <= u32::MAX && q <= u32::MAX;
            &&& well_formed_spec(s)
            &&& fits ==> parse_outcome(s) == Ok::<(u32, u32), Seq<char>>((p as u32, q as u32))
            &&& !fits ==> parse_outcome(s) is Err
            &&& u3.len() == 0 && p > 0 ==> q % p == 0
        }),
{
    let t1 = d1 + u1;
    let t3 = d3 + u3;
    let s = d1 + u1 + seq![':'] + d3 + u3;
    let i = t1.len() as int;
    assert(s =~= t1 + seq![':'] + t3);
    assert(s.subrange(0, i) =~= t1);
    assert(s.subrange(i + 1, s.len() as int) =~= t3);
    lemma_term_parts(d1, u1);
    lemma_term_parts(d3, u3);
    assert(colon_at(s, i));
    lemma_colon_unique(s, i, spec_colon(s));
    assert(precision_term(s) == t1);
    assert(retention_term(s) == t3);
    let p = digits_value(d1) * if u1.len() == 1 {
        unit_seconds(u1[0])
    } else {
        1
    };
    assert(precision_seconds(s) == p);
    if u3.len() == 0 && p > 0 {
        vstd::arithmetic::div_mod::lemma_mod_multiples_basic(digits_value(d3) as int, p);
    }
}

/// A precision and a retention, both in seconds.
#[derive(Debug, Clone, Copy, PartialEq, Eq, Structural)]
pub struct RetentionPolicy {
    pub precision: u32,
    pub retention: u32,
}

/// Where the parts of a well-formed spec end: the precision digits end at
/// `precision_end`, the colon is at `colon`, the retention digits end at
/// `retention_end`; each unit, if any, follows its digits.
struct SpecParts {
    colon: usize,
    precision_end: usize,
    retention_end: usize,
    len: usize,
}

/// Seconds in the unit letter `c`, zero for any other character.
fn unit_of(c: char) -> (r: u32)
    ensures
        r == unit_seconds(c),
{
    if c == 's' {
        1
    } else if c == 'm' {
        60
    } else if c == 'h' {
        3600
    } else if c == 'd' {
        86400
    } else if c == 'w' {
        604800
    } else if c == 'y' {
        31536000
    } else {
        0
    }
}

/// The end of the digits of the term `s[from..to]`, if it is a term.
fn term_digits_end(s: &str, from: usize, to: usize) -> (r: Option<usize>)
    requires
        from <= to <= s@.len(),
    ensures
        r is Some <==> is_term(s@.subrange(from as int, to as int)),
        r matches Some(e) ==> from < e <= to && s@.subrange(from as int, e as int) == amount(
            s@.subrange(from as int, to as int),
        ),
{
    let ghost t = s@.subrange(from as int, to as int);
    if from == to {
        return None;
    }
    let last = s.get_char(to - 1);
    let end = if unit_of(last) > 0 {
        to - 1
    } else {
        to
    };
    assert(s@.subrange(from as int, end as int) =~= amount(t));
    if end == from {
        return None;
    }
    let mut i = from;
    while i < end
        invariant
            from <= i <= end <= to <= s@.len(),
            t == s@.subrange(from as int, to as int),
            s@.subrange(from as int, end as int) == amount(t),
            forall|k: int| from <= k < i ==> is_digit(#[trigger] s@[k]),
        decreases end - i,
    {
        let c = s.get_char(i);
        if !('0' <= c && c <= '9') {
            assert(amount(t)[i - from] == c);
            return None;
        }
        i = i + 1;
    }
    assert(all_digits(amount(t))) by {
        assert forall|k: int| 0 <= k < amount(t).len() implies is_digit(#[trigger] amount(t)[k]) by {
            assert(amount(t)[k] == s@[from + k]);
        }
    }
    Some(end)
}

/// The value of the digits `s[from..to]`, or `u32::MAX + 1` if it is larger.
fn parse_amount(s: &str, from: usize, to: usize) -> (r: u64)
    requires
        from < to <= s@.len(),
        all_digits(s@.subrange(from as int, to as int)),
    ensures
        r == if digits_value(s@.subrange(from as int, to as int)) > u32::MAX {
            u32::MAX + 1
        } else {
            digits_value(s@.subrange(from as int, to as int)) as int
        },
{
    let mut acc: u64 = 0;
    let mut i = from;
    assert(s@.subrange(from as int, from as int) =~= Seq::<char>::empty());
    while i < to
        invariant
            from <= i <= to <= s@.len(),
            all_digits(s@.subrange(from as int, to as int)),
            acc == if digits_value(s@.subrange(from as int, i as int)) > u32::MAX {
                u32::MAX + 1
            } else {
                digits_value(s@.subrange(from as int, i as int)) as int
            },
        decreases to - i,
    {
        let c = s.get_char(i);
        let ghost prefix = s@.subrange(from as int, i as int);
        let ghost next = s@.subrange(from as int, i + 1);
        assert(next.drop_last() =~= prefix);
        assert(next.last() == c);
        assert(is_digit(s@.subrange(from as int, to as int)[i - from]));
        let d = (c as u32 - '0' as u32) as u64;
        if acc <= u32::MAX as u64 {
            let v = acc * 10 + d;
            acc = if v > u32::MAX as u64 {
                u32::MAX as u64 + 1
            } else {
                v
            };
        }
        i = i + 1;
    }
    acc
}

/// Finds the parts of `spec`, if it is written in the grammar.
fn split_spec(spec: &str) -> (r: Option<SpecParts>)
    ensures
        r is Some <==> well_formed_spec(spec@),
        r matches Some(p) ==> {
            &&& p.colon == spec_colon(spec@)
            &&& p.len == spec@.len()
            &&& 0 < p.precision_end <= p.colon
            &&& p.colon + 1 < p.retention_end <= p.len
            &&& spec@.subrange(0, p.precision_end as int) == amount(precision_term(spec@))
            &&& spec@.subrange(p.colon + 1, p.retention_end as int) == amount(
                retention_term(spec@),
            )
        },
{
    let n = spec.unicode_len();
    let mut i: usize = 0;
    let mut at_colon = false;
    while i < n && !at_colon
        invariant
            n == spec@.len(),
            i <= n,
            at_colon ==> i < n && spec@[i as int] == ':',
            forall|k: int| 0 <= k < i ==> #[trigger] spec@[k] != ':',
        decreases n - i + if at_colon {
            0int
        } else {
            1int
        },
    {
        if spec.get_char(i) == ':' {
            at_colon = true;
        } else {
            i = i + 1;
        }
    }
    if i == n {
        proof {
            if well_formed_spec(spec@) {
                let j = choose|j: int| colon_at(spec@, j);
                assert(spec@[j] == ':');
            }
        }
        return None;
    }
    let left = term_digits_end(spec, 0, i);
    let right = term_digits_end(spec, i + 1, n);
    proof {
        if well_formed_spec(spec@) {
            let j = choose|j: int| colon_at(spec@, j);
            if j > i {
                let t = spec@.subrange(0, j);
                assert(t[i as int] == ':');
                if has_unit(t) && i == t.len() - 1 {
                    assert(is_unit(t.last()));
                } else {
                    assert(amount(t)[i as int] == t[i as int]);
                }
            }
            assert(j == i);
        }
    }
    match (left, right) {
        (Some(precision_end), Some(retention_end)) => {
            proof {
                assert(colon_at(spec@, i as int));
                lemma_colon_unique(spec@, i as int, spec_colon(spec@));
            }
            Some(SpecParts { colon: i, precision_end, retention_end, len: n })
        },
        _ => None,
    }
}

/// Builds the policy from the parts of a well-formed spec, refusing an
/// amount that does not fit in a `u32` once its unit is applied.
fn retention_capture_to_pair(policy_spec: &str, parts: &SpecParts) -> (r: Result<
    RetentionPolicy,
    SchemaError,
>)
    requires
        well_formed_spec(policy_spec@),
        parts.colon == spec_colon(policy_spec@),
        parts.len == policy_spec@.len(),
        0 < parts.precision_end <= parts.colon,
        parts.colon + 1 < parts.retention_end <= parts.len,
        policy_spec@.subrange(0, parts.precision_end as int) == amount(
            precision_term(policy_spec@),
        ),
        policy_spec@.subrange(parts.colon + 1, parts.retention_end as int) == amount(
            retention_term(policy_spec@),
        ),
    ensures
        match parse_outcome(policy_spec@) {
            Ok((p, q)) => r == Ok::<RetentionPolicy, SchemaError>(
                RetentionPolicy { precision: p, retention: q },
            ),
            Err(m) => (r matches Err(e) && e.0@ == m),
        },
{
    let ghost s = policy_spec@;
    let ghost pt = precision_term(s);
    let ghost rt = retention_term(s);
    let precision_digits = parse_amount(policy_spec, 0, parts.precision_end);
    let precision_mult: u32 = if parts.precision_end < parts.colon {
        unit_of(policy_spec.get_char(parts.precision_end))
    } else {
        1
    };
    proof {
        assert(pt.len() == parts.colon);
        if parts.precision_end < parts.colon {
            assert(has_unit(pt));
            assert(pt.last() == s[parts.precision_end as int]);
        } else {
            assert(!has_unit(pt));
        }
    }
    if precision_digits > (u32::MAX as u64) / (precision_mult as u64) {
        proof {
            assert(digits_value(amount(pt)) * precision_mult > u32::MAX) by (nonlinear_arith)
                requires
                    precision_digits > (u32::MAX as int) / (precision_mult as int),
                    precision_mult >= 1,
                    precision_digits <= digits_value(amount(pt)),
            ;
        }
        let mut m = String::from_str("Unable to parse precision '");
        m.append(policy_spec.substring_char(0, parts.precision_end));
        m.append("' in policy '");
        m.append(policy_spec);
        m.append("' as u32\nCaused by: number too large to fit in target type");
        return Err(SchemaError(m));
    }
    assert(precision_digits * precision_mult <= u32::MAX) by (nonlinear_arith)
        requires
            precision_digits <= (u32::MAX as int) / (precision_mult as int),
            precision_mult >= 1,
    ;
    let precision = (precision_digits * precision_mult as u64) as u32;
    assert(precision == precision_seconds(s));
    let retention_digits = parse_amount(policy_spec, parts.colon + 1, parts.retention_end);
    let retention_mult: u32 = if parts.retention_end < parts.len {
        unit_of(policy_spec.get_char(parts.retention_end))
    } else {
        precision
    };
    proof {
        assert(rt.len() == parts.len - parts.colon - 1);
        if parts.retention_end < parts.len {
            assert(has_unit(rt));
            assert(rt.last() == s[parts.retention_end as int]);
        } else {
            assert(!has_unit(rt));
        }
    }
    if retention_digits > u32::MAX as u64 || (retention_mult > 0 && retention_digits > (
    u32::MAX as u64) / (retention_mult as u64)) {
        proof {
            if retention_digits <= u32::MAX as u64 {
                assert(digits_value(amount(rt)) * retention_mult > u32::MAX) by (nonlinear_arith)
                    requires
                        retention_digits > (u32::MAX as int) / (retention_mult as int),
                        retention_mult >= 1,
                        retention_digits <= digits_value(amount(rt)),
                ;
            }
        }
        let mut m = String::from_str("Unable to parse retention '");
        m.append(policy_spec.substring_char(parts.colon + 1, parts.retention_end));
        m.append("' in policy '");
        m.append(policy_spec);
        m.append("' as u32\nCaused by: number too large to fit in target type");
        return Err(SchemaError(m));
    }
    if retention_mult == 0 {
        assert(parts.retention_end == parts.len);
        assert(!has_unit(rt));
        assert(precision_seconds(s) == 0);
        assert(retention_seconds(s) == digits_value(amount(rt)) * 0);
        return Ok(RetentionPolicy { precision, retention: 0 });
    }
    proof {
        if digits_value(amount(rt)) > u32::MAX {
            assert(retention_digits == u32::MAX + 1);
        }
    }
    assert(retention_digits * retention_mult <= u32::MAX) by (nonlinear_arith)
        requires
            retention_digits <= (u32::MAX as int) / (retention_mult as int),
            retention_mult >= 1,
    ;
    let retention = (retention_digits * retention_mult as u64) as u32;
    Ok(RetentionPolicy { precision, retention })
}

/// Seconds in the unit named by `mult_str`.
pub fn mult_str_to_num(mult_str: &str) -> (r: Result<u32, SchemaError>)
    ensures
        (mult_str@.len() == 1 && is_unit(mult_str@[0])) ==> r == Ok::<u32, SchemaError>(
            unit_seconds(mult_str@[0]) as u32,
        ),
        !(mult_str@.len() == 1 && is_unit(mult_str@[0])) ==> (r matches Err(e) && e.0@
            == unknown_unit_message(mult_str@)),
{
    if mult_str.unicode_len() == 1 {
        let u = unit_of(mult_str.get_char(0));
        if u > 0 {
            return Ok(u);
        }
    }
    let mut m = String::from_str("Unrecognized time multiplier specified: '");
    m.append(mult_str);
    m.append("'");
    Err(SchemaError(m))
}

impl RetentionPolicy {
    /// Reads a policy written as `<amount>[unit]:<amount>[unit]`.
    pub fn spec_to_retention_policy(spec: &str) -> (r: Result<RetentionPolicy, SchemaError>)
        ensures
            match parse_outcome(spec@) {
                Ok((p, q)) => r == Ok::<RetentionPolicy, SchemaError>(
                    RetentionPolicy { precision: p, retention: q },
                ),
                Err(m) => (r matches Err(e) && e.0@ == m),
            },
    {
        match split_spec(spec) {
            Some(parts) => retention_capture_to_pair(spec, &parts),
            None => {
                let mut m = String::from_str("Policy '");
                m.append(spec);
                m.append("' is in an invalid format");
                Err(SchemaError(m))
            },
        }
    }

    /// The number of slots: retention divided by precision.
    pub fn points(&self) -> (r: u32)
        requires
            self.precision > 0,
        ensures
            r == self.retention / self.precision,
    {
        self.retention / self.precision
    }

    /// Bytes taken by the archive's slots.
    pub fn size_on_disk(&self) -> (r: u32)
        requires
            self.precision > 0,
            (self.retention / self.precision) * POINT_SIZE <= u32::MAX,
        ensures
            r == (self.retention / self.precision) * POINT_SIZE,
    {
        self.points() * POINT_SIZE as u32
    }

    /// Appends this policy's descriptor: `offset`, precision and points.
    pub fn fill_buf(&self, buf: &mut Vec<u8>, offset: u32)
        requires
            self.precision > 0,
        ensures
            final(buf)@ == old(buf)@ + u32_bytes(offset) + u32_bytes(self.precision) + u32_bytes(
                (self.retention / self.precision) as u32,
            ),
    {
        push_u32(buf, offset);
        push_u32(buf, self.precision);
        push_u32(buf, self.points());
    }
}

} // verus!
