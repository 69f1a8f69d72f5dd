//! Hierarchical identifiers: a path of name segments.
use vstd::prelude::*;
use vstd::string::StringExecFns;

verus! {

/// The model of a raw name: its characters.
pub type Name = Seq<char>;

/// The model of an identifier: its segments, outermost first.
pub type Path = Seq<Seq<char>>;

/// A unique, hierarchically qualified identifier such as `f::x`, held as
/// its path of segments. Two identifiers are equal when their paths are.
#[derive(Debug, Clone, PartialEq, Eq, Hash)]
pub struct Ident {
    pub segments: Vec<String>,
}

/// The views of a sequence of strings.
pub open spec fn names(v: Seq<String>) -> Seq<Name> {
    Seq::new(v.len(), |i: int| v[i]@)
}

impl View for Ident {
    type V = Path;

    open spec fn view(&self) -> Path {
        names(self.segments@)
    }
}

impl Ident {
    /// The empty root path.
    pub fn empty() -> (r: Ident)
        ensures
            r@ == Seq::<Name>::empty(),
    {
        let r = Ident { segments: Vec::new() };
        assert(r@ =~= Seq::<Name>::empty());
        r
    }

    /// The identifier made of the single segment `name`.
    pub fn new(name: &str) -> (r: Ident)
        ensures
            r@ == seq![name@],
    {
        let mut segments: Vec<String> = Vec::new();
        segments.push(String::from_str(name));
        let r = Ident { segments };
        assert(r@ =~= seq![name@]);
        r
    }

    /// This path with `segment` appended; `self` is left as it is.
    pub fn extend(&self, segment: &str) -> (r: Ident)
        ensures
            r@ == self@.push(segment@),
    {
        let mut segments: Vec<String> = Vec::new();
        let n: usize = self.segments.len();
        let mut i: usize = 0;
        while i < n
            invariant
                n == self.segments@.len(),
                i <= n,
                segments@.len() == i,
                forall|j: int| 0 <= j < i ==> (#[trigger] segments@[j])@ == self.segments@[j]@,
            decreases n - i,
        {
            segments.push(self.segments[i].clone());
            i = i + 1;
        }
        segments.push(String::from_str(segment));
        let r = Ident { segments };
        assert(r@ =~= self@.push(segment@));
        r
    }

    /// A copy of this identifier.
    pub fn duplicate(&self) -> (r: Ident)
        ensures
            r@ == self@,
    {
        let mut segments: Vec<String> = Vec::new();
        let n: usize = self.segments.len();
        let mut i: usize = 0;
        while i < n
            invariant
                n == self.segments@.len(),
                i <= n,
                segments@.len() == i,
                forall|j: int| 0 <= j < i ==> (#[trigger] segments@[j])@ == self.segments@[j]@,
            decreases n - i,
        {
            segments.push(self.segments[i].clone());
            i = i + 1;
        }
        let r = Ident { segments };
        assert(r@ =~= self@);
        r
    }

    /// Whether two identifiers have the same path.
    pub fn same(&self, other: &Ident) -> (b: bool)
        ensures
            b == (self@ == other@),
    {
        let n: usize = self.segments.len();
        if n != other.segments.len() {
            assert(self@.len() != other@.len());
            return false;
        }
        let mut i: usize = 0;
        while i < n
            invariant
                n == self.segments@.len(),
                n == other.segments@.len(),
                i <= n,
                forall|j: int| 0 <= j < i ==> self@[j] == other@[j],
            decreases n - i,
        {
            if !(self.segments[i] == other.segments[i]) {
                assert(self@[i as int] != other@[i as int]);
                return false;
            }
            i = i + 1;
        }
        assert(self@ =~= other@);
        true
    }
}

/// The decimal digit `d` as a string; the empty string above nine.
pub open spec fn digit_name(d: int) -> Name {
    if d == 0 {
        "0"@
    } else if d == 1 {
        "1"@
    } else if d == 2 {
        "2"@
    } else if d == 3 {
        "3"@
    } else if d == 4 {
        "4"@
    } else if d == 5 {
        "5"@
    } else if d == 6 {
        "6"@
    } else if d == 7 {
        "7"@
    } else if d == 8 {
        "8"@
    } else if d == 9 {
        "9"@
    } else {
        Seq::empty()
    }
}

/// The decimal notation of `n`, without leading zeros.
pub open spec fn decimal(n: nat) -> Name
    decreases n,
{
    if n < 10 {
        digit_name(n as int)
    } else {
        decimal(n / 10) + digit_name((n % 10) as int)
    }
}

/// The segment that names the anonymous block at nesting index `index`:
/// `{let 0}`, `{let 1}` and so on.
pub open spec fn let_segment(index: nat) -> Name {
    "{let "@ + decimal(index) + "}"@
}

/// The name of the fresh local that stands for the argument at `position`:
/// `_0`, `_1` and so on.
pub open spec fn local_name(position: nat) -> Name {
    "_"@ + decimal(position)
}

fn digit_str(d: usize) -> (r: &'static str)
    requires
        d < 10,
    ensures
        r@ == digit_name(d as int),
{
    if d == 0 {
        "0"
    } else if d == 1 {
        "1"
    } else if d == 2 {
        "2"
    } else if d == 3 {
        "3"
    } else if d == 4 {
        "4"
    } else if d == 5 {
        "5"
    } else if d == 6 {
        "6"
    } else if d == 7 {
        "7"
    } else if d == 8 {
        "8"
    } else {
        "9"
    }
}

/// Appends the decimal notation of `n` to `out`.
fn push_decimal(out: &mut String, n: usize)
    ensures
        final(out)@ == old(out)@ + decimal(n as nat),
    decreases n,
{
    if n < 10 {
        out.append(digit_str(n));
    } else {
        push_decimal(out, n / 10);
        out.append(digit_str(n % 10));
        assert(final(out)@ =~= old(out)@ + decimal(n as nat));
    }
}

/// The segment `{let <index>}`.
pub fn let_name(index: u8) -> (r: String)
    ensures
        r@ == let_segment(index as nat),
{
    let mut r = String::from_str("{let ");
    push_decimal(&mut r, index as usize);
    r.append("}");
    assert(r@ =~= let_segment(index as nat));
    r
}

/// The name `_<position>` of a fresh local.
pub fn fresh_local(position: usize) -> (r: String)
    ensures
        r@ == local_name(position as nat),
{
    let mut r = String::from_str("_");
    push_decimal(&mut r, position);
    r
}

/// Each digit is written with one character, and different digits with
/// different ones.
pub proof fn lemma_digit_names(a: int, b: int)
    requires
        0 <= a < 10,
        0 <= b < 10,
    ensures
        digit_name(a).len() == 1,
        digit_name(a) == digit_name(b) ==> a == b,
{
    reveal_strlit("0");
    reveal_strlit("1");
    reveal_strlit("2");
    reveal_strlit("3");
    reveal_strlit("4");
    reveal_strlit("5");
    reveal_strlit("6");
    reveal_strlit("7");
    reveal_strlit("8");
    reveal_strlit("9");
    if digit_name(a) == digit_name(b) {
        assert(digit_name(a)[0] == digit_name(b)[0]);
    }
}

/// A decimal notation has a digit, and two from ten on.
pub proof fn lemma_decimal_len(n: nat)
    ensures
        decimal(n).len() >= 1,
        n >= 10 ==> decimal(n).len() >= 2,
    decreases n,
{
    if n < 10 {
        lemma_digit_names(n as int, 0);
    } else {
        lemma_decimal_len(n / 10);
        lemma_digit_names((n % 10) as int, 0);
    }
}

/// Different numbers have different decimal notations.
pub proof fn lemma_decimal_injective(a: nat, b: nat)
    requires
        decimal(a) == decimal(b),
    ensures
        a == b,
    decreases a,
{
    lemma_decimal_len(a);
    lemma_decimal_len(b);
    if a < 10 && b < 10 {
        lemma_digit_names(a as int, b as int);
    } else if a < 10 {
        lemma_digit_names(a as int, 0);
    } else if b < 10 {
        lemma_digit_names(b as int, 0);
    } else {
        let da = digit_name((a % 10) as int);
        let db = digit_name((b % 10) as int);
        lemma_digit_names((a % 10) as int, (b % 10) as int);
        lemma_digit_names((b % 10) as int, (a % 10) as int);
        let s = decimal(a);
        assert(s.subrange(0, s.len() - 1) =~= decimal(a / 10));
        assert(s.subrange(0, s.len() - 1) =~= decimal(b / 10));
        assert(s.subrange(s.len() - 1, s.len() as int) =~= da);
        assert(s.subrange(s.len() - 1, s.len() as int) =~= db);
        lemma_decimal_injective(a / 10, b / 10);
    }
}

/// Blocks at different nesting indices get different segments, and
/// arguments at different positions get locals of different names.
pub proof fn lemma_generated_names_injective(a: nat, b: nat)
    ensures
        let_segment(a) == let_segment(b) ==> a == b,
        local_name(a) == local_name(b) ==> a == b,
{
    if let_segment(a) == let_segment(b) {
        let s = let_segment(a);
        let from = "{let "@.len() as int;
        let to = s.len() - "}"@.len();
        assert(s.subrange(from, to) =~= decimal(a));
        assert(s.subrange(from, to) =~= decimal(b));
        lemma_decimal_injective(a, b);
    }
    if local_name(a) == local_name(b) {
        let s = local_name(a);
        let from = "_"@.len() as int;
        assert(s.subrange(from, s.len() as int) =~= decimal(a));
        assert(s.subrange(from, s.len() as int) =~= decimal(b));
        lemma_decimal_injective(a, b);
    }
}

} // verus!
