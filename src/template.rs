use vstd::prelude::*;

verus! {

/// One of the two profiles that Cargo defines itself.
#[derive(Clone, Copy, Debug, PartialEq, Eq, Structural)]
pub enum BuiltinProfile {
    Dev,
    Release,
}

/// The name under which Cargo knows a builtin profile.
pub open spec fn builtin_name(p: BuiltinProfile) -> Seq<char> {
    match p {
        BuiltinProfile::Dev => "dev"@,
        BuiltinProfile::Release => "release"@,
    }
}

impl BuiltinProfile {
    pub fn name(&self) -> (r: &'static str)
        ensures
            r@ == builtin_name(*self),
    {
        match self {
            BuiltinProfile::Dev => "dev",
            BuiltinProfile::Release => "release",
        }
    }
}

/// Whether `name` is the name of a builtin profile.
pub open spec fn is_builtin_name(name: Seq<char>) -> bool {
    name == "dev"@ || name == "release"@
}

pub fn is_builtin_profile(name: &str) -> (r: bool)
    ensures
        r == is_builtin_name(name@),
{
    let dev = "dev";
    let release = "release";
    proof {
        reveal_strlit("dev");
        reveal_strlit("release");
    }
    str_eq(name, dev) || str_eq(name, release)
}

/// Character-wise equality of two strings.
pub fn str_eq(a: &str, b: &str) -> (r: bool)
    ensures
        r == (a@ == b@),
{
    let n = a.unicode_len();
    if n != b.unicode_len() {
        return false;
    }
    let mut i: usize = 0;
    while i < n
        invariant
            n == a@.len(),
            n == b@.len(),
            i <= n,
            a@.subrange(0, i as int) == b@.subrange(0, i as int),
        decreases n - i,
    {
        if a.get_char(i) != b.get_char(i) {
            assert(a@[i as int] != b@[i as int]);
            return false;
        }
        assert(a@.subrange(0, i + 1) == a@.subrange(0, i as int).push(a@[i as int]));
        assert(b@.subrange(0, i + 1) == b@.subrange(0, i as int).push(b@[i as int]));
        i = i + 1;
    }
    assert(a@ == a@.subrange(0, n as int));
    assert(b@ == b@.subrange(0, n as int));
    true
}

/// A value that a template assigns to a profile key.
#[derive(Clone, Debug, PartialEq, Eq)]
pub enum TemplateValue {
    Bool(bool),
    Integer(i64),
    Text(String),
}

/// A named set of profile settings, and the builtin profile that a custom
/// profile built from it inherits from.
#[derive(Clone, Debug)]
pub struct ProfileTemplate {
    pub inherits: BuiltinProfile,
    pub fields: Vec<(String, TemplateValue)>,
}

} // verus!
