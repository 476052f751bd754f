use vstd::prelude::*;
use vstd::string::StringSliceAdditionalSpecFns;

verus! {

/// A configuration value, typed where its type is known.
#[derive(Debug, Clone, PartialEq, Eq)]
pub enum Value {
    Boolean(Boolean),
    Integer(Integer),
    Color(Color),
    Other(String),
}

/// A boolean together with the spelling it was given in.
#[derive(Debug, Clone, Copy, PartialEq, Eq, Structural)]
pub enum Boolean {
    True(TrueVariant),
    False(FalseVariant),
}

/// The spellings of true.
#[derive(Debug, Clone, Copy, PartialEq, Eq, Structural)]
pub enum TrueVariant {
    Yes,
    On,
    True,
    One,
    /// A variable given without `= <value>`; no text parses to it, as an empty text is false.
    Implicit,
}

/// The spellings of false.
#[derive(Debug, Clone, Copy, PartialEq, Eq, Structural)]
pub enum FalseVariant {
    No,
    Off,
    False,
    Zero,
    EmptyString,
}

/// An integer with an optional binary size suffix.
#[derive(Debug, Clone, Copy, PartialEq, Eq, Structural)]
pub struct Integer {
    pub value: i64,
    pub suffix: Option<IntegerSuffix>,
}

/// The size suffixes of integers.
#[derive(Debug, Clone, Copy, PartialEq, Eq, Structural)]
pub enum IntegerSuffix {
    Kilo,
    Mega,
    Giga,
}

/// A color: foreground, background and attributes.
#[derive(Debug, Clone, PartialEq, Eq)]
pub struct Color {
    pub foreground: Option<ColorValue>,
    pub background: Option<ColorValue>,
    pub attributes: Vec<ColorAttribute>,
}

/// One color.
#[derive(Debug, Clone, Copy, PartialEq, Eq, Structural)]
pub enum ColorValue {
    Normal,
    Black,
    BrightBlack,
    Red,
    BrightRed,
    Green,
    BrightGreen,
    Yellow,
    BrightYellow,
    Blue,
    BrightBlue,
    Magenta,
    BrightMagenta,
    Cyan,
    BrightCyan,
    White,
    BrightWhite,
    Ansi(u8),
    Rgb(u8, u8, u8),
}

/// The attributes a color can carry, each with its negation.
#[derive(Debug, Clone, Copy, PartialEq, Eq, Structural)]
pub enum ColorAttribute {
    Bold,
    NoBold,
    Dim,
    NoDim,
    Ul,
    NoUl,
    Blink,
    NoBlink,
    Reverse,
    NoReverse,
    Italic,
    NoItalic,
    Strike,
    NoStrike,
}

pub const YES: [u8; 3] = [121, 101, 115];
pub const ON: [u8; 2] = [111, 110];
pub const TRUE: [u8; 4] = [116, 114, 117, 101];
pub const ONE: [u8; 3] = [111, 110, 101];
pub const NO: [u8; 2] = [110, 111];
pub const OFF: [u8; 3] = [111, 102, 102];
pub const FALSE: [u8; 5] = [102, 97, 108, 115, 101];
pub const ZERO: [u8; 4] = [122, 101, 114, 111];

/// The ASCII lower case of a byte.
pub open spec fn ascii_lower(b: u8) -> u8 {
    if 65 <= b <= 90 { (b + 32) as u8 } else { b }
}

/// The two byte strings are equal but for ASCII case.
pub open spec fn eq_ignore_case(a: Seq<u8>, b: Seq<u8>) -> bool {
    a.len() == b.len() && forall|i: int| 0 <= i < a.len() ==> ascii_lower(a[i]) == ascii_lower(b[i])
}

/// The spelling of true that `s` is, ignoring ASCII case.
pub open spec fn true_variant_of(s: Seq<u8>) -> Option<TrueVariant> {
    if eq_ignore_case(s, YES@) {
        Some(TrueVariant::Yes)
    } else if eq_ignore_case(s, ON@) {
        Some(TrueVariant::On)
    } else if eq_ignore_case(s, TRUE@) {
        Some(TrueVariant::True)
    } else if eq_ignore_case(s, ONE@) {
        Some(TrueVariant::One)
    } else {
        None
    }
}

/// The spelling of false that `s` is, ignoring ASCII case; the empty text is false too.
pub open spec fn false_variant_of(s: Seq<u8>) -> Option<FalseVariant> {
    if eq_ignore_case(s, NO@) {
        Some(FalseVariant::No)
    } else if eq_ignore_case(s, OFF@) {
        Some(FalseVariant::Off)
    } else if eq_ignore_case(s, FALSE@) {
        Some(FalseVariant::False)
    } else if eq_ignore_case(s, ZERO@) {
        Some(FalseVariant::Zero)
    } else if s.len() == 0 {
        Some(FalseVariant::EmptyString)
    } else {
        None
    }
}

/// Whether `a` and `b` are equal but for ASCII case.
pub fn eq_ignore_ascii_case(a: &[u8], b: &[u8]) -> (r: bool)
    ensures
        r == eq_ignore_case(a@, b@),
{
    if a.len() != b.len() {
        return false;
    }
    let mut i: usize = 0;
    while i < a.len()
        invariant
            a@.len() == b@.len(),
            i <= a@.len(),
            forall|j: int| 0 <= j < i ==> ascii_lower(a@[j]) == ascii_lower(b@[j]),
        decreases a@.len() - i,
    {
        let x = if 65 <= a[i] && a[i] <= 90 { a[i] + 32 } else { a[i] };
        let y = if 65 <= b[i] && b[i] <= 90 { b[i] + 32 } else { b[i] };
        if x != y {
            return false;
        }
        i += 1;
    }
    true
}

impl Value {
    /// A value of unknown type, kept as text.
    pub fn from_str(s: &str) -> (r: Value)
        ensures
            r matches Value::Other(t) && t@ == s@,
    {
        Value::Other(s.to_owned())
    }

    /// A value of unknown type, kept as text.
    pub fn from_string(s: String) -> (r: Value)
        ensures
            r matches Value::Other(t) && t@ == s@,
    {
        Value::Other(s)
    }
}

impl TrueVariant {
    /// Parse a spelling of true: `yes`, `on`, `true` or `one`, in any ASCII case.
    pub fn from_str(value: &str) -> (r: Result<TrueVariant, ()>)
        ensures
            match true_variant_of(value.spec_bytes()) {
                Some(v) => r == Ok::<TrueVariant, ()>(v),
                None => r is Err,
            },
    {
        let s = value.as_bytes();
        if eq_ignore_ascii_case(s, &YES) {
            Ok(TrueVariant::Yes)
        } else if eq_ignore_ascii_case(s, &ON) {
            Ok(TrueVariant::On)
        } else if eq_ignore_ascii_case(s, &TRUE) {
            Ok(TrueVariant::True)
        } else if eq_ignore_ascii_case(s, &ONE) {
            Ok(TrueVariant::One)
        } else {
            Err(())
        }
    }
}

impl FalseVariant {
    /// Parse a spelling of false: `no`, `off`, `false` or `zero`, in any ASCII case, or the empty text.
    pub fn from_str(value: &str) -> (r: Result<FalseVariant, ()>)
        ensures
            match false_variant_of(value.spec_bytes()) {
                Some(v) => r == Ok::<FalseVariant, ()>(v),
                None => r is Err,
            },
    {
        let s = value.as_bytes();
        if eq_ignore_ascii_case(s, &NO) {
            Ok(FalseVariant::No)
        } else if eq_ignore_ascii_case(s, &OFF) {
            Ok(FalseVariant::Off)
        } else if eq_ignore_ascii_case(s, &FALSE) {
            Ok(FalseVariant::False)
        } else if eq_ignore_ascii_case(s, &ZERO) {
            Ok(FalseVariant::Zero)
        } else if s.len() == 0 {
            Ok(FalseVariant::EmptyString)
        } else {
            Err(())
        }
    }
}

/// The boolean `s` spells.
pub open spec fn boolean_spelled(s: Seq<u8>) -> Option<Boolean> {
    match (true_variant_of(s), false_variant_of(s)) {
        (Some(t), _) => Some(Boolean::True(t)),
        (None, Some(f)) => Some(Boolean::False(f)),
        (None, None) => None,
    }
}

impl Boolean {
    /// Parse a boolean: a spelling of true, else a spelling of false.
    pub fn from_str(value: &str) -> (r: Result<Boolean, ()>)
        ensures
            match boolean_spelled(value.spec_bytes()) {
                Some(b) => r == Ok::<Boolean, ()>(b),
                None => r is Err,
            },
    {
        Boolean::from_bytes(value.as_bytes())
    }

    /// Parse a boolean from bytes: a spelling of true, else a spelling of false.
    pub fn from_bytes(s: &[u8]) -> (r: Result<Boolean, ()>)
        ensures
            match boolean_spelled(s@) {
                Some(b) => r == Ok::<Boolean, ()>(b),
                None => r is Err,
            },
    {
        if eq_ignore_ascii_case(s, &YES) {
            Ok(Boolean::True(TrueVariant::Yes))
        } else if eq_ignore_ascii_case(s, &ON) {
            Ok(Boolean::True(TrueVariant::On))
        } else if eq_ignore_ascii_case(s, &TRUE) {
            Ok(Boolean::True(TrueVariant::True))
        } else if eq_ignore_ascii_case(s, &ONE) {
            Ok(Boolean::True(TrueVariant::One))
        } else if eq_ignore_ascii_case(s, &NO) {
            Ok(Boolean::False(FalseVariant::No))
        } else if eq_ignore_ascii_case(s, &OFF) {
            Ok(Boolean::False(FalseVariant::Off))
        } else if eq_ignore_ascii_case(s, &FALSE) {
            Ok(Boolean::False(FalseVariant::False))
        } else if eq_ignore_ascii_case(s, &ZERO) {
            Ok(Boolean::False(FalseVariant::Zero))
        } else if s.len() == 0 {
            Ok(Boolean::False(FalseVariant::EmptyString))
        } else {
            Err(())
        }
    }

    /// The truth this boolean stands for.
    pub fn to_bool(&self) -> (r: bool)
        ensures
            r == (*self is True),
    {
        match self {
            Boolean::True(_) => true,
            Boolean::False(_) => false,
        }
    }
}

impl IntegerSuffix {
    /// The power of two the suffix stands for.
    pub fn bitwise_offset(&self) -> (r: usize)
        ensures
            r == match *self {
                IntegerSuffix::Kilo => 10usize,
                IntegerSuffix::Mega => 20usize,
                IntegerSuffix::Giga => 30usize,
            },
    {
        match self {
            IntegerSuffix::Kilo => 10,
            IntegerSuffix::Mega => 20,
            IntegerSuffix::Giga => 30,
        }
    }

    /// Parse `k`, `m` or `g`.
    pub fn from_str(s: &str) -> (r: Result<IntegerSuffix, ()>)
        ensures
            s.spec_bytes() == seq![107u8] ==> r == Ok::<IntegerSuffix, ()>(IntegerSuffix::Kilo),
            s.spec_bytes() == seq![109u8] ==> r == Ok::<IntegerSuffix, ()>(IntegerSuffix::Mega),
            s.spec_bytes() == seq![103u8] ==> r == Ok::<IntegerSuffix, ()>(IntegerSuffix::Giga),
            s.spec_bytes() != seq![107u8] && s.spec_bytes() != seq![109u8] && s.spec_bytes() != seq![103u8] ==> r is Err,
    {
        let b = s.as_bytes();
        if b.len() != 1 {
            assert(b@ != seq![107u8] && b@ != seq![109u8] && b@ != seq![103u8]);
            return Err(());
        }
        if b[0] == 107 {
            assert(b@ =~= seq![107u8]);
            Ok(IntegerSuffix::Kilo)
        } else if b[0] == 109 {
            assert(b@ =~= seq![109u8]);
            Ok(IntegerSuffix::Mega)
        } else if b[0] == 103 {
            assert(b@ =~= seq![103u8]);
            Ok(IntegerSuffix::Giga)
        } else {
            assert(b@ != seq![107u8] && b@ != seq![109u8] && b@ != seq![103u8]) by {
                assert(seq![107u8][0] == 107 && seq![109u8][0] == 109 && seq![103u8][0] == 103);
            }
            Err(())
        }
    }
}

impl Integer {
    /// The value with its suffix applied, or `None` where that does not fit 64 bits.
    pub fn to_decimal(&self) -> (r: Option<i64>)
        ensures
            match self.suffix {
                None => r == Some(self.value),
                Some(sx) => {
                    let m: int = match sx {
                        IntegerSuffix::Kilo => 1024int,
                        IntegerSuffix::Mega => 0x10_0000int,
                        IntegerSuffix::Giga => 0x4000_0000int,
                    };
                    if i64::MIN <= self.value * m <= i64::MAX {
                        r == Some((self.value * m) as i64)
                    } else {
                        r is None
                    }
                },
            },
    {
        match self.suffix {
            None => Some(self.value),
            Some(sx) => {
                let m: i64 = match sx {
                    IntegerSuffix::Kilo => 1024,
                    IntegerSuffix::Mega => 1024 * 1024,
                    IntegerSuffix::Giga => 1024 * 1024 * 1024,
                };
                self.value.checked_mul(m)
            },
        }
    }
}

pub const BOLD: [u8; 4] = [98, 111, 108, 100];
pub const DIM: [u8; 3] = [100, 105, 109];
pub const UL: [u8; 2] = [117, 108];
pub const BLINK: [u8; 5] = [98, 108, 105, 110, 107];
pub const REVERSE: [u8; 7] = [114, 101, 118, 101, 114, 115, 101];
pub const ITALIC: [u8; 6] = [105, 116, 97, 108, 105, 99];
pub const STRIKE: [u8; 6] = [115, 116, 114, 105, 107, 101];
pub const NORMAL: [u8; 6] = [110, 111, 114, 109, 97, 108];
pub const BLACK: [u8; 5] = [98, 108, 97, 99, 107];
pub const RED: [u8; 3] = [114, 101, 100];
pub const GREEN: [u8; 5] = [103, 114, 101, 101, 110];
pub const YELLOW: [u8; 6] = [121, 101, 108, 108, 111, 119];
pub const BLUE: [u8; 4] = [98, 108, 117, 101];
pub const MAGENTA: [u8; 7] = [109, 97, 103, 101, 110, 116, 97];
pub const CYAN: [u8; 4] = [99, 121, 97, 110];
pub const WHITE: [u8; 5] = [119, 104, 105, 116, 101];

/// The attribute a name stands for, plain or inverted.
pub open spec fn attribute_named(name: Seq<u8>, inverted: bool) -> Option<ColorAttribute> {
    if name == BOLD@ {
        Some(if inverted { ColorAttribute::NoBold } else { ColorAttribute::Bold })
    } else if name == DIM@ {
        Some(if inverted { ColorAttribute::NoDim } else { ColorAttribute::Dim })
    } else if name == UL@ {
        Some(if inverted { ColorAttribute::NoUl } else { ColorAttribute::Ul })
    } else if name == BLINK@ {
        Some(if inverted { ColorAttribute::NoBlink } else { ColorAttribute::Blink })
    } else if name == REVERSE@ {
        Some(if inverted { ColorAttribute::NoReverse } else { ColorAttribute::Reverse })
    } else if name == ITALIC@ {
        Some(if inverted { ColorAttribute::NoItalic } else { ColorAttribute::Italic })
    } else if name == STRIKE@ {
        Some(if inverted { ColorAttribute::NoStrike } else { ColorAttribute::Strike })
    } else {
        None
    }
}

/// The attribute a text gives: its first two bytes are a prefix, `no` inverting the attribute,
/// then an optional `-`, then the attribute's name.
pub open spec fn attribute_of(s: Seq<u8>) -> Option<ColorAttribute> {
    if s.len() < 2 {
        None
    } else {
        let inverted = s[0] == 110 && s[1] == 111;
        let rest = s.subrange(2, s.len() as int);
        let name = if rest.len() > 0 && rest[0] == 45 { rest.subrange(1, rest.len() as int) } else { rest };
        attribute_named(name, inverted)
    }
}

impl ColorAttribute {
    /// Parse an attribute: two bytes of prefix, `no` for the inverted attribute, an optional
    /// `-`, and one of `bold`, `dim`, `ul`, `blink`, `reverse`, `italic`, `strike`.
    pub fn from_str(s: &str) -> (r: Result<ColorAttribute, ()>)
        ensures
            match attribute_of(s.spec_bytes()) {
                Some(a) => r == Ok::<ColorAttribute, ()>(a),
                None => r is Err,
            },
    {
        let b = s.as_bytes();
        if b.len() < 2 {
            return Err(());
        }
        let inverted = b[0] == 110 && b[1] == 111;
        let rest = vstd::slice::slice_subrange(b, 2, b.len());
        let name = if rest.len() > 0 && rest[0] == 45 { vstd::slice::slice_subrange(rest, 1, rest.len()) } else { rest };
        let attribute = if crate::bytes::bytes_equal(name, &BOLD) {
            if inverted { ColorAttribute::NoBold } else { ColorAttribute::Bold }
        } else if crate::bytes::bytes_equal(name, &DIM) {
            if inverted { ColorAttribute::NoDim } else { ColorAttribute::Dim }
        } else if crate::bytes::bytes_equal(name, &UL) {
            if inverted { ColorAttribute::NoUl } else { ColorAttribute::Ul }
        } else if crate::bytes::bytes_equal(name, &BLINK) {
            if inverted { ColorAttribute::NoBlink } else { ColorAttribute::Blink }
        } else if crate::bytes::bytes_equal(name, &REVERSE) {
            if inverted { ColorAttribute::NoReverse } else { ColorAttribute::Reverse }
        } else if crate::bytes::bytes_equal(name, &ITALIC) {
            if inverted { ColorAttribute::NoItalic } else { ColorAttribute::Italic }
        } else if crate::bytes::bytes_equal(name, &STRIKE) {
            if inverted { ColorAttribute::NoStrike } else { ColorAttribute::Strike }
        } else {
            return Err(());
        };
        Ok(attribute)
    }
}

/// The value of a decimal digit string, or `None` when a byte is no digit.
pub open spec fn decimal_value(s: Seq<u8>) -> Option<nat>
    decreases s.len(),
{
    if s.len() == 0 {
        Some(0)
    } else if !(48 <= s.last() <= 57) {
        None
    } else {
        match decimal_value(s.drop_last()) {
            Some(v) => Some(v * 10 + (s.last() - 48) as nat),
            None => None,
        }
    }
}

/// A byte as `u8`'s `from_str` reads it: an optional `+`, then at least one decimal digit, with a
/// value of at most 255.
pub open spec fn u8_of(s: Seq<u8>) -> Option<u8> {
    let digits = if s.len() > 0 && s[0] == 43 { s.subrange(1, s.len() as int) } else { s };
    if digits.len() == 0 {
        None
    } else {
        match decimal_value(digits) {
            Some(v) if v <= 255 => Some(v as u8),
            _ => None,
        }
    }
}

/// The value of a hexadecimal digit.
pub open spec fn hex_value(b: u8) -> Option<u8> {
    if 48 <= b <= 57 {
        Some((b - 48) as u8)
    } else if 97 <= b <= 102 {
        Some((b - 87) as u8)
    } else if 65 <= b <= 70 {
        Some((b - 55) as u8)
    } else {
        None
    }
}

/// Two bytes as `u8::from_str_radix(_, 16)` reads them: two hexadecimal digits, or `+` and one.
pub open spec fn hex_pair(a: u8, b: u8) -> Option<u8> {
    if a == 43 {
        hex_value(b)
    } else {
        match (hex_value(a), hex_value(b)) {
            (Some(x), Some(y)) => Some((x * 16 + y) as u8),
            _ => None,
        }
    }
}

/// The color a text names: one of the basic color names, an ANSI color number, or `#rrggbb`.
pub open spec fn color_value_of(s: Seq<u8>) -> Option<ColorValue> {
    if s == NORMAL@ {
        Some(ColorValue::Normal)
    } else if s == BLACK@ {
        Some(ColorValue::Black)
    } else if s == RED@ {
        Some(ColorValue::Red)
    } else if s == GREEN@ {
        Some(ColorValue::Green)
    } else if s == YELLOW@ {
        Some(ColorValue::Yellow)
    } else if s == BLUE@ {
        Some(ColorValue::Blue)
    } else if s == MAGENTA@ {
        Some(ColorValue::Magenta)
    } else if s == CYAN@ {
        Some(ColorValue::Cyan)
    } else if s == WHITE@ {
        Some(ColorValue::White)
    } else if u8_of(s) is Some {
        Some(ColorValue::Ansi(u8_of(s)->Some_0))
    } else if s.len() == 7 && s[0] == 35 {
        match (hex_pair(s[1], s[2]), hex_pair(s[3], s[4]), hex_pair(s[5], s[6])) {
            (Some(r), Some(g), Some(b)) => Some(ColorValue::Rgb(r, g, b)),
            _ => None,
        }
    } else {
        None
    }
}

fn parse_u8(s: &[u8]) -> (r: Option<u8>)
    ensures
        r == u8_of(s@),
{
    let start: usize = if s.len() > 0 && s[0] == 43 { 1 } else { 0 };
    let digits = vstd::slice::slice_subrange(s, start, s.len());
    assert(digits@ == if s@.len() > 0 && s@[0] == 43 { s@.subrange(1, s@.len() as int) } else { s@ }) by {
        if start == 0 {
            assert(s@.subrange(0, s@.len() as int) =~= s@);
        }
    }
    if digits.len() == 0 {
        return None;
    }
    let mut v: u32 = 0;
    let mut i: usize = 0;
    while i < digits.len()
        invariant
            i <= digits@.len(),
            decimal_value(digits@.subrange(0, i as int)) == Some(v as nat),
            v <= 255,
            digits@ == (if s@.len() > 0 && s@[0] == 43 { s@.subrange(1, s@.len() as int) } else { s@ }),
            digits@.len() > 0,
        decreases digits@.len() - i,
    {
        let d = digits[i];
        assert(digits@.subrange(0, i as int + 1).drop_last() =~= digits@.subrange(0, i as int));
        if d < 48 || d > 57 {
            proof {
                lemma_decimal_none_stays(digits@, i as int + 1);
            }
            return None;
        }
        v = v * 10 + (d - 48) as u32;
        i += 1;
        if v > 255 {
            proof {
                lemma_decimal_grows(digits@, i as int);
            }
            return None;
        }
    }
    assert(digits@.subrange(0, i as int) =~= digits@);
    Some(v as u8)
}

proof fn lemma_decimal_none_stays(s: Seq<u8>, k: int)
    requires
        0 <= k <= s.len(),
        decimal_value(s.subrange(0, k)) is None,
    ensures
        decimal_value(s) is None,
    decreases s.len() - k,
{
    if k < s.len() {
        assert(s.subrange(0, k + 1).drop_last() =~= s.subrange(0, k));
        lemma_decimal_none_stays(s, k + 1);
    } else {
        assert(s.subrange(0, k) =~= s);
    }
}

proof fn lemma_decimal_grows(s: Seq<u8>, k: int)
    requires
        0 <= k <= s.len(),
        decimal_value(s.subrange(0, k)) matches Some(v) && v > 255,
    ensures
        !(decimal_value(s) matches Some(w) && w <= 255),
    decreases s.len() - k,
{
    if k < s.len() {
        assert(s.subrange(0, k + 1).drop_last() =~= s.subrange(0, k));
        if decimal_value(s.subrange(0, k + 1)) is None {
            lemma_decimal_none_stays(s, k + 1);
        } else {
            lemma_decimal_grows(s, k + 1);
        }
    } else {
        assert(s.subrange(0, k) =~= s);
    }
}

fn hex_digit_value(b: u8) -> (r: Option<u8>)
    ensures
        r == hex_value(b),
{
    if 48 <= b && b <= 57 {
        Some(b - 48)
    } else if 97 <= b && b <= 102 {
        Some(b - 87)
    } else if 65 <= b && b <= 70 {
        Some(b - 55)
    } else {
        None
    }
}

fn read_hex_pair(a: u8, b: u8) -> (r: Option<u8>)
    ensures
        r == hex_pair(a, b),
{
    if a == 43 {
        hex_digit_value(b)
    } else {
        match (hex_digit_value(a), hex_digit_value(b)) {
            (Some(x), Some(y)) => Some(x * 16 + y),
            _ => None,
        }
    }
}

impl ColorValue {
    /// Parse a color: `normal`, a basic color name, an ANSI color number, or `#rrggbb`.
    pub fn from_str(s: &str) -> (r: Result<ColorValue, ()>)
        ensures
            match color_value_of(s.spec_bytes()) {
                Some(c) => r == Ok::<ColorValue, ()>(c),
                None => r is Err,
            },
    {
        let b = s.as_bytes();
        if crate::bytes::bytes_equal(b, &NORMAL) {
            return Ok(ColorValue::Normal);
        } else if crate::bytes::bytes_equal(b, &BLACK) {
            return Ok(ColorValue::Black);
        } else if crate::bytes::bytes_equal(b, &RED) {
            return Ok(ColorValue::Red);
        } else if crate::bytes::bytes_equal(b, &GREEN) {
            return Ok(ColorValue::Green);
        } else if crate::bytes::bytes_equal(b, &YELLOW) {
            return Ok(ColorValue::Yellow);
        } else if crate::bytes::bytes_equal(b, &BLUE) {
            return Ok(ColorValue::Blue);
        } else if crate::bytes::bytes_equal(b, &MAGENTA) {
            return Ok(ColorValue::Magenta);
        } else if crate::bytes::bytes_equal(b, &CYAN) {
            return Ok(ColorValue::Cyan);
        } else if crate::bytes::bytes_equal(b, &WHITE) {
            return Ok(ColorValue::White);
        }
        if let Some(v) = parse_u8(b) {
            return Ok(ColorValue::Ansi(v));
        }
        if b.len() == 7 && b[0] == 35 {
            match (read_hex_pair(b[1], b[2]), read_hex_pair(b[3], b[4]), read_hex_pair(b[5], b[6])) {
                (Some(r), Some(g), Some(bl)) => return Ok(ColorValue::Rgb(r, g, bl)),
                _ => {},
            }
        }
        Err(())
    }
}

} // verus!
