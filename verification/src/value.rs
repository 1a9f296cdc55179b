//! Typed values and declared schema types, inferred from raw statement text.

use vstd::prelude::*;

verus! {

broadcast use vstd::std_specs::vec::group_vec_axioms, vstd::seq::group_seq_axioms;

/// The characters `0` through `9`.
pub open spec fn is_digit(c: char) -> bool {
    48 <= c as u32 <= 57
}

/// The numeric value of a digit character.
pub open spec fn digit_of(c: char) -> int {
    c as u32 - 48
}

/// An exponent marker.
pub open spec fn is_e(c: char) -> bool {
    c == 'e' || c == 'E'
}

/// A mantissa over `s[lo..hi)`: digits and at most one dot, at least one
/// digit.
pub open spec fn mantissa_at(s: Seq<char>, lo: int, hi: int) -> bool {
    &&& 0 <= lo < hi <= s.len()
    &&& (forall|i: int| lo <= i < hi ==> is_digit(#[trigger] s[i]) || s[i] == '.')
    &&& (exists|i: int| lo <= i < hi && is_digit(#[trigger] s[i]))
    &&& (forall|i: int, j: int| lo <= i < j < hi && s[i] == '.' ==> #[trigger] s[j] != '.'
        || #[trigger] s[i] != '.')
}

/// An exponent over `s[lo..hi)`: an optional minus sign, then digits.
pub open spec fn exponent_at(s: Seq<char>, lo: int, hi: int) -> bool {
    let d = if lo < hi && s[lo] == '-' {
        lo + 1
    } else {
        lo
    };
    &&& 0 <= lo
    &&& d < hi <= s.len()
    &&& (forall|i: int| d <= i < hi ==> is_digit(#[trigger] s[i]))
}

/// Text that value inference reads as a number: an optional minus sign, a
/// mantissa, and an optional exponent part after `e` or `E`.
pub open spec fn is_number_text(s: Seq<char>) -> bool {
    let lo: int = if s.len() > 0 && s[0] == '-' {
        1
    } else {
        0
    };
    ||| mantissa_at(s, lo, s.len() as int)
    ||| (exists|k: int|
        lo <= k < s.len() && is_e(#[trigger] s[k]) && mantissa_at(s, lo, k) && exponent_at(
            s,
            k + 1,
            s.len() as int,
        ))
}

/// The integer value of the digit characters `s[lo..hi)`.
pub open spec fn digits_value(s: Seq<char>, lo: int, hi: int) -> int
    decreases hi - lo,
    when lo <= hi
{
    if hi <= lo {
        0
    } else {
        digits_value(s, lo, hi - 1) * 10 + digit_of(s[hi - 1])
    }
}

/// Text that re-parses as a platform-sized integer: an optional minus sign,
/// digits, and a value that fits in `isize`.
pub open spec fn is_isize_text(s: Seq<char>) -> bool {
    let neg = s.len() > 0 && s[0] == '-';
    let lo: int = if neg {
        1
    } else {
        0
    };
    &&& lo < s.len()
    &&& (forall|i: int| lo <= i < s.len() ==> is_digit(#[trigger] s[i]))
    &&& (if neg {
        digits_value(s, lo, s.len() as int) <= isize::MAX + 1
    } else {
        digits_value(s, lo, s.len() as int) <= isize::MAX
    })
}

/// A parsed value: a leaf taken from one statement's text, or a nested
/// object built by evaluation. A number keeps its validated text form.
#[derive(Debug, PartialEq)]
pub enum Value {
    String(String),
    Number(String),
    Boolean(bool),
    Object(Vec<(String, Value)>),
}

/// Ghost image of a value; object entries keep their insertion order.
#[verifier::ext_equal]
pub enum ValueV {
    String(Seq<char>),
    Number(Seq<char>),
    Boolean(bool),
    Object(Seq<(Seq<char>, ValueV)>),
}

/// Ghost image of a value, entry by entry.
pub open spec fn value_view(v: Value) -> ValueV
    decreases v,
{
    match v {
        Value::String(s) => ValueV::String(s@),
        Value::Number(s) => ValueV::Number(s@),
        Value::Boolean(b) => ValueV::Boolean(b),
        Value::Object(m) => ValueV::Object(
            Seq::new(
                m@.len(),
                |i: int|
                    if 0 <= i < m@.len() {
                        (m@[i].0@, value_view(m@[i].1))
                    } else {
                        arbitrary()
                    },
            ),
        ),
    }
}

/// Ghost image of an object's entry list.
pub open spec fn obj_view(m: Seq<(String, Value)>) -> Seq<(Seq<char>, ValueV)> {
    Seq::new(
        m.len(),
        |i: int|
            if 0 <= i < m.len() {
                (m[i].0@, value_view(m[i].1))
            } else {
                arbitrary()
            },
    )
}

/// Pushing an entry pushes its ghost image.
pub proof fn lemma_obj_view_push(m: Seq<(String, Value)>, p: (String, Value))
    ensures
        obj_view(m.push(p)) =~~= obj_view(m).push((p.0@, value_view(p.1))),
{
}

/// Updating an entry updates its ghost image.
pub proof fn lemma_obj_view_update(m: Seq<(String, Value)>, i: int, p: (String, Value))
    requires
        0 <= i < m.len(),
    ensures
        obj_view(m.update(i, p)) =~~= obj_view(m).update(i, (p.0@, value_view(p.1))),
{
}

/// The two spellings of an object's ghost image agree.
pub proof fn lemma_obj_view(m: Vec<(String, Value)>)
    ensures
        value_view(Value::Object(m)) == ValueV::Object(obj_view(m@)),
{
    assert(value_view(Value::Object(m)) matches ValueV::Object(es) && es =~= obj_view(m@));
}

impl View for Value {
    type V = ValueV;

    open spec fn view(&self) -> ValueV {
        value_view(*self)
    }
}

/// Decides whether the text reads as a number.
pub fn is_number_str(s: &str) -> (b: bool)
    ensures
        b == is_number_text(s@),
{
    let n = s.unicode_len();
    let start: usize = if n > 0 && s.get_char(0) == '-' {
        1
    } else {
        0
    };
    let mut epos: usize = n;
    let mut i: usize = start;
    while i < n && epos == n
        invariant
            n == s@.len(),
            start == (if s@.len() > 0 && s@[0] == '-' {
                1int
            } else {
                0int
            }),
            start <= i <= n,
            epos == n || (start <= epos && epos < n && is_e(s@[epos as int])),
            epos == n ==> forall|k: int| start <= k < i ==> !is_e(#[trigger] s@[k]),
            epos < n ==> (forall|k: int| start <= k < epos ==> !is_e(#[trigger] s@[k])),
        decreases n - i + (if epos == n {
            1int
        } else {
            0int
        }),
    {
        let c = s.get_char(i);
        if c == 'e' || c == 'E' {
            epos = i;
        } else {
            i = i + 1;
        }
    }
    let mend = epos;
    let mut ok = true;
    let mut saw_digit = false;
    let mut saw_dot = false;
    let mut k: usize = start;
    while k < mend
        invariant
            n == s@.len(),
            start <= k <= mend <= n,
            ok ==> (forall|t: int| start <= t < k ==> is_digit(#[trigger] s@[t]) || s@[t] == '.'),
            ok ==> (forall|t: int, u: int|
                start <= t < u < k && s@[t] == '.' ==> #[trigger] s@[u] != '.' || #[trigger] s@[t]
                    != '.'),
            !ok ==> !mantissa_at(s@, start as int, mend as int),
            saw_digit == (exists|t: int| start <= t < k && is_digit(#[trigger] s@[t])),
            saw_dot == (exists|t: int| start <= t < k && #[trigger] s@[t] == '.'),
        decreases mend - k,
    {
        let c = s.get_char(k);
        let u = c as u32;
        if 48 <= u && u <= 57 {
            saw_digit = true;
            proof {
                assert(is_digit(s@[k as int]));
            }
        } else if c == '.' {
            if saw_dot {
                proof {
                    let t = choose|t: int| start <= t < k && #[trigger] s@[t] == '.';
                    assert(s@[t] == '.' && s@[k as int] == '.');
                    assert(!mantissa_at(s@, start as int, mend as int));
                }
                ok = false;
            }
            saw_dot = true;
        } else {
            proof {
                assert(!is_digit(s@[k as int]) && s@[k as int] != '.');
                assert(!mantissa_at(s@, start as int, mend as int));
            }
            ok = false;
        }
        k = k + 1;
    }
    let m_ok = ok && saw_digit && start < mend;
    proof {
        assert(m_ok == mantissa_at(s@, start as int, mend as int));
    }
    if epos == n {
        proof {
            if exists|q: int|
                start <= q < s@.len() && is_e(#[trigger] s@[q]) && mantissa_at(s@, start as int, q)
                    && exponent_at(s@, q + 1, s@.len() as int) {
                let q = choose|q: int|
                    start <= q < s@.len() && is_e(#[trigger] s@[q]) && mantissa_at(
                        s@,
                        start as int,
                        q,
                    ) && exponent_at(s@, q + 1, s@.len() as int);
                assert(!is_e(s@[q]));
            }
        }
        m_ok
    } else {
        let mut lo = epos + 1;
        if lo < n && s.get_char(lo) == '-' {
            lo = lo + 1;
        }
        let mut exp_ok = lo < n;
        let mut t: usize = lo;
        while t < n
            invariant
                n == s@.len(),
                epos < lo,
                lo <= t <= n,
                exp_ok ==> lo < n,
                exp_ok ==> forall|u: int| lo <= u < t ==> is_digit(#[trigger] s@[u]),
                !exp_ok ==> !exponent_at(s@, epos + 1, s@.len() as int),
                lo == (if epos + 1 < s@.len() && s@[epos + 1] == '-' {
                    epos + 2
                } else {
                    epos + 1
                }),
            decreases n - t,
        {
            let c = s.get_char(t);
            let u = c as u32;
            if !(48 <= u && u <= 57) {
                proof {
                    assert(!is_digit(s@[t as int]));
                }
                exp_ok = false;
            }
            t = t + 1;
        }
        proof {
            assert(exp_ok == exponent_at(s@, epos + 1, s@.len() as int));
            if m_ok && exp_ok {
                assert(is_e(s@[epos as int]) && mantissa_at(s@, start as int, epos as int)
                    && exponent_at(s@, epos + 1, s@.len() as int));
                assert(is_number_text(s@));
            }
            if is_number_text(s@) {
                if mantissa_at(s@, start as int, s@.len() as int) {
                    assert(is_digit(s@[epos as int]) || s@[epos as int] == '.');
                    assert(false);
                }
                let q = choose|q: int|
                    start <= q < s@.len() && is_e(#[trigger] s@[q]) && mantissa_at(
                        s@,
                        start as int,
                        q,
                    ) && exponent_at(s@, q + 1, s@.len() as int);
                if q != epos {
                    if q < epos {
                        assert(!is_e(s@[q]));
                    } else {
                        assert(is_digit(s@[epos as int]) || s@[epos as int] == '.');
                    }
                    assert(false);
                }
                assert(m_ok && exp_ok);
            }
        }
        m_ok && exp_ok
    }
}

/// Reads the text as a number when it fits the numeric grammar; the value
/// keeps the text itself.
pub fn parse_number(input: &str) -> (r: Option<Value>)
    ensures
        match r {
            Some(v) => is_number_text(input@) && v@ == ValueV::Number(input@),
            None => !is_number_text(input@),
        },
{
    if is_number_str(input) {
        Some(Value::Number(String::from_str(input)))
    } else {
        None
    }
}

/// Reads the text as a boolean when it is exactly `true` or `false`.
pub fn parse_boolean(input: &str) -> (r: Option<Value>)
    ensures
        match r {
            Some(v) => (input@ == "true"@ && v == Value::Boolean(true)) || (input@ == "false"@ && v
                == Value::Boolean(false)),
            None => input@ != "true"@ && input@ != "false"@,
        },
{
    let t = String::from_str("true");
    let f = String::from_str("false");
    let owned = s_to_owned(input);
    if owned == t {
        Some(Value::Boolean(true))
    } else if owned == f {
        Some(Value::Boolean(false))
    } else {
        None
    }
}

/// An owned copy of a string slice.
fn s_to_owned(s: &str) -> (r: String)
    ensures
        r@ == s@,
{
    String::from_str(s)
}

impl From<String> for Value {
    /// Infers a typed value from raw text: numeric-looking text becomes a
    /// number, the exact literals `true` and `false` become booleans, and
    /// everything else stays a string.
    fn from(value: String) -> (r: Self) {
        if is_number_str(value.as_str()) {
            Value::Number(value)
        } else if value == String::from_str("true") {
            Value::Boolean(true)
        } else if value == String::from_str("false") {
            Value::Boolean(false)
        } else {
            Value::String(value)
        }
    }
}

impl vstd::std_specs::convert::FromSpecImpl<String> for Value {
    open spec fn obeys_from_spec() -> bool {
        true
    }

    open spec fn from_spec(value: String) -> Self {
        if is_number_text(value@) {
            Value::Number(value)
        } else if value@ == "true"@ {
            Value::Boolean(true)
        } else if value@ == "false"@ {
            Value::Boolean(false)
        } else {
            Value::String(value)
        }
    }
}


/// A value of nonnegative digits only grows as more digits are appended.
proof fn lemma_digits_value_mono(s: Seq<char>, lo: int, mid: int, hi: int)
    requires
        0 <= lo <= mid <= hi <= s.len(),
        forall|t: int| lo <= t < hi ==> is_digit(#[trigger] s[t]),
    ensures
        digits_value(s, lo, hi) >= digits_value(s, lo, mid),
        digits_value(s, lo, hi) >= 0,
        digits_value(s, lo, mid) >= 0,
    decreases hi - mid,
{
    if hi == mid {
        lemma_digits_value_nonneg(s, lo, mid);
    } else {
        lemma_digits_value_mono(s, lo, mid, hi - 1);
        let prev = digits_value(s, lo, hi - 1);
        assert(prev * 10 >= prev) by (nonlinear_arith)
            requires
                prev >= 0,
        ;
    }
}

/// A value of digits is never negative.
proof fn lemma_digits_value_nonneg(s: Seq<char>, lo: int, hi: int)
    requires
        0 <= lo <= hi <= s.len(),
        forall|t: int| lo <= t < hi ==> is_digit(#[trigger] s[t]),
    ensures
        digits_value(s, lo, hi) >= 0,
    decreases hi - lo,
{
    if hi > lo {
        lemma_digits_value_nonneg(s, lo, hi - 1);
        let prev = digits_value(s, lo, hi - 1);
        assert(prev * 10 >= 0) by (nonlinear_arith)
            requires
                prev >= 0,
        ;
    }
}

/// Decides whether the text re-parses as a platform-sized integer.
pub fn is_isize_str(s: &str) -> (b: bool)
    ensures
        b == is_isize_text(s@),
{
    let n = s.unicode_len();
    let neg = n > 0 && s.get_char(0) == '-';
    let lo: usize = if neg {
        1
    } else {
        0
    };
    if lo >= n {
        return false;
    }
    let limit: usize = if neg {
        (isize::MAX as usize) + 1
    } else {
        isize::MAX as usize
    };
    let mut acc: usize = 0;
    let mut i: usize = lo;
    while i < n
        invariant
            n == s@.len(),
            lo <= i <= n,
            lo < n,
            neg == (s@.len() > 0 && s@[0] == '-'),
            lo == (if neg {
                1int
            } else {
                0int
            }),
            limit == (if neg {
                isize::MAX + 1
            } else {
                isize::MAX as int
            }),
            forall|t: int| lo <= t < i ==> is_digit(#[trigger] s@[t]),
            acc == digits_value(s@, lo as int, i as int),
            acc <= limit,
        decreases n - i,
    {
        let c = s.get_char(i);
        let u = c as u32;
        if !(48 <= u && u <= 57) {
            proof {
                assert(!is_digit(s@[i as int]));
            }
            return false;
        }
        let d = (u - 48) as usize;
        proof {
            assert(d == digit_of(s@[i as int]));
        }
        if acc > (limit - d) / 10 {
            proof {
                assert(acc * 10 + d > limit) by (nonlinear_arith)
                    requires
                        acc > (limit - d) / 10,
                        0 <= d <= limit,
                        acc >= 0,
                ;
                if is_isize_text(s@) {
                    assert(digits_value(s@, lo as int, i + 1) == acc * 10 + d);
                    lemma_digits_value_mono(s@, lo as int, i + 1, n as int);
                    assert(false);
                }
            }
            return false;
        }
        proof {
            assert(acc * 10 + d <= limit) by (nonlinear_arith)
                requires
                    acc <= (limit - d) / 10,
                    0 <= d <= limit,
                    acc >= 0,
            ;
        }
        acc = acc * 10 + d;
        i = i + 1;
    }
    true
}

/// Two spaces of indentation for each nesting level.
pub open spec fn indent_of(level: nat) -> Seq<char>
    decreases level,
{
    if level == 0 {
        Seq::empty()
    } else {
        indent_of((level - 1) as nat) + "  "@
    }
}

/// The rendering of one object entry: the indented, quoted key, then the
/// entry value.
pub open spec fn entry_format(e: (Seq<char>, ValueV), level: nat) -> Seq<char>
    decreases e,
{
    indent_of(level) + seq!['"'] + e.0 + "\": "@ + format_spec(e.1, level)
}

/// The renderings of the entries, joined with a comma and line break.
pub open spec fn entries_format(es: Seq<(Seq<char>, ValueV)>, level: nat) -> Seq<char>
    decreases es,
{
    if es.len() == 0 {
        Seq::empty()
    } else if es.len() == 1 {
        entry_format(es[0], level)
    } else {
        entries_format(es.drop_last(), level) + ",\n"@ + entry_format(es.last(), level)
    }
}

/// The rendering of a value at a nesting level: strings quoted, numbers and
/// booleans bare, objects brace-delimited with two-space indentation.
pub open spec fn format_spec(v: ValueV, level: nat) -> Seq<char>
    decreases v,
{
    match v {
        ValueV::String(s) => seq!['"'] + s + seq!['"'],
        ValueV::Number(s) => s,
        ValueV::Boolean(b) => if b {
            "true"@
        } else {
            "false"@
        },
        ValueV::Object(es) => "{\n"@ + entries_format(es, level + 1) + "\n"@ + indent_of(level)
            + "}"@,
    }
}

/// True when the value satisfies the declared type: booleans match only
/// Boolean, strings only String; a number matches Float always, and Integer
/// exactly when its text re-parses as a platform-sized integer.
pub open spec fn check_ok(v: ValueV, st: SchemaType) -> bool {
    match (v, st) {
        (ValueV::Boolean(_), SchemaType::Boolean) => true,
        (ValueV::String(_), SchemaType::String) => true,
        (ValueV::Number(_), SchemaType::Float) => true,
        (ValueV::Number(t), SchemaType::Integer) => is_isize_text(t),
        _ => false,
    }
}

/// The message reported when a value does not satisfy its declared type.
pub open spec fn mismatch_message(v: ValueV, st: SchemaType) -> Seq<char> {
    "declared as type `"@ + st.format_spec() + "` but `"@ + format_spec(v, 0) + "` cannot be read as `"@
        + st.format_spec() + "`"@
}

impl Value {
    /// Renders the value: strings quoted, numbers and booleans bare, objects
    /// brace-delimited with two-space indentation per level.
    pub fn format(&self) -> (r: String)
        ensures
            r@ == format_spec(self@, 0),
    {
        let pad = String::new();
        self.format_at(&pad, Ghost(0nat))
    }

    /// Renders the value at a nesting level whose indentation is `pad`.
    fn format_at(&self, pad: &String, level: Ghost<nat>) -> (r: String)
        requires
            pad@ == indent_of(level@),
        ensures
            r@ == format_spec(self@, level@),
        decreases *self,
    {
        match self {
            Value::String(s) => {
                let mut out = String::from_str("\"");
                out.append(s.as_str());
                out.append("\"");
                proof {
                    reveal_strlit("\"");
                    assert(out@ =~= seq!['"'] + s@ + seq!['"']);
                }
                out
            },
            Value::Number(s) => String::from_str(s.as_str()),
            Value::Boolean(b) => {
                if *b {
                    String::from_str("true")
                } else {
                    String::from_str("false")
                }
            },
            Value::Object(m) => {
                let ghost ev = match self@ {
                    ValueV::Object(es) => es,
                    _ => arbitrary(),
                };
                let mut out = String::from_str("{\n");
                let mut pad2 = String::new();
                pad2.append(pad.as_str());
                pad2.append("  ");
                proof {
                    assert(pad2@ =~= indent_of(level@ + 1));
                }
                let n = m.len();
                let mut i: usize = 0;
                while i < n
                    invariant
                        n == m@.len(),
                        i <= n,
                        *self == Value::Object(*m),
                        ev == (match value_view(*self) {
                            ValueV::Object(es) => es,
                            _ => arbitrary(),
                        }),
                        ev.len() == n,
                        forall|t: int| 0 <= t < n ==> #[trigger] ev[t] == (m@[t].0@, value_view(m@[t].1)),
                        pad2@ == indent_of(level@ + 1),
                        pad@ == indent_of(level@),
                        out@ == "{\n"@ + entries_format(ev.take(i as int), level@ + 1),
                    decreases n - i,
                {
                    if i > 0 {
                        out.append(",\n");
                    }
                    out.append(pad2.as_str());
                    out.append("\"");
                    out.append(m[i].0.as_str());
                    out.append("\": ");
                    let ghost out_mid = out@;
                    let sub = m[i].1.format_at(&pad2, Ghost(level@ + 1));
                    out.append(sub.as_str());
                    proof {
                        reveal_strlit("\"");
                        assert(ev.take(i + 1).drop_last() =~= ev.take(i as int));
                        assert(ev.take(i + 1).last() == ev[i as int]);
                        assert(out_mid + sub@ =~= (if i > 0 {
                            "{\n"@ + entries_format(ev.take(i as int), level@ + 1) + ",\n"@
                        } else {
                            "{\n"@
                        }) + entry_format(ev[i as int], level@ + 1));
                        assert(out@ =~= "{\n"@ + entries_format(ev.take(i + 1), level@ + 1));
                    }
                    i = i + 1;
                }
                out.append("\n");
                out.append(pad.as_str());
                out.append("}");
                proof {
                    assert(ev.take(n as int) =~= ev);
                    assert(out@ =~= format_spec(self@, level@));
                }
                out
            },
        }
    }

    /// Checks the value against a declared type, reporting a mismatch
    /// message otherwise.
    pub fn check(&self, schema_type: &SchemaType) -> (r: Result<(), String>)
        ensures
            match r {
                Ok(_) => check_ok(self@, *schema_type),
                Err(m) => !check_ok(self@, *schema_type) && m@ == mismatch_message(
                    self@,
                    *schema_type,
                ),
            },
    {
        match (self, schema_type) {
            (Value::Boolean(_), SchemaType::Boolean) => Ok(()),
            (Value::String(_), SchemaType::String) => Ok(()),
            (Value::Number(_), SchemaType::Float) => Ok(()),
            (Value::Number(t), SchemaType::Integer) => {
                if is_isize_str(t.as_str()) {
                    Ok(())
                } else {
                    Err(self.mismatch(schema_type))
                }
            },
            _ => Err(self.mismatch(schema_type)),
        }
    }

    /// Builds the mismatch message for this value and a declared type.
    fn mismatch(&self, st: &SchemaType) -> (r: String)
        ensures
            r@ == mismatch_message(self@, *st),
    {
        let mut m = String::from_str("declared as type `");
        m.append(st.format().as_str());
        m.append("` but `");
        m.append(self.format().as_str());
        m.append("` cannot be read as `");
        m.append(st.format().as_str());
        m.append("`");
        m
    }
}

/// The declared type a schema assigns to a key.
#[derive(Debug, PartialEq, Clone, Copy)]
pub enum SchemaType {
    Integer,
    Float,
    Boolean,
    String,
}

impl SchemaType {
    /// The name under which the type is declared and reported.
    pub open spec fn format_spec(&self) -> Seq<char> {
        match self {
            SchemaType::Integer => "integer"@,
            SchemaType::Float => "float"@,
            SchemaType::Boolean => "bool"@,
            SchemaType::String => "string"@,
        }
    }

    /// Renders the type's declared name.
    pub fn format(&self) -> (r: String)
        ensures
            r@ == self.format_spec(),
    {
        match self {
            SchemaType::Integer => String::from_str("integer"),
            SchemaType::Float => String::from_str("float"),
            SchemaType::Boolean => String::from_str("bool"),
            SchemaType::String => String::from_str("string"),
        }
    }
}

impl From<String> for SchemaType {
    /// The declared type named by `value`; unknown names degrade to String.
    fn from(value: String) -> (r: Self) {
        if value == String::from_str("integer") {
            proof {
                reveal_strlit("integer");
            }
            SchemaType::Integer
        } else if value == String::from_str("bool") {
            proof {
                reveal_strlit("bool");
            }
            SchemaType::Boolean
        } else if value == String::from_str("float") {
            proof {
                reveal_strlit("float");
            }
            SchemaType::Float
        } else {
            SchemaType::String
        }
    }
}

impl vstd::std_specs::convert::FromSpecImpl<String> for SchemaType {
    open spec fn obeys_from_spec() -> bool {
        true
    }

    open spec fn from_spec(value: String) -> Self {
        if value@ == "integer"@ {
            SchemaType::Integer
        } else if value@ == "bool"@ {
            SchemaType::Boolean
        } else if value@ == "float"@ {
            SchemaType::Float
        } else {
            SchemaType::String
        }
    }
}

} // verus!
