//! The build-time architecture label and the greeting that embeds it.
//!
//! Which architecture a build targets is compile-time configuration that the
//! library cannot probe itself, so callers pass it in as a plain `Arch`
//! value; everything from the label on is computed and verified here.
use vstd::prelude::*;
use vstd::string::StringExecFns;

verus! {

/// The CPU architectures the library can name; anything else is `Unknown`.
#[allow(non_camel_case_types)]
#[derive(Clone, Copy, PartialEq, Eq, Structural, Debug)]
pub enum Arch {
    X86,
    X86_64,
    Arm,
    Aarch64,
    Unknown,
}

/// The fixed label for each architecture.
pub open spec fn arch_label(arch: Arch) -> Seq<char> {
    match arch {
        Arch::X86 => "x86"@,
        Arch::X86_64 => "x86_64"@,
        Arch::Arm => "arm"@,
        Arch::Aarch64 => "aarch64"@,
        Arch::Unknown => "unknown"@,
    }
}

/// The fixed prefix of the greeting.
pub open spec fn greeting_prefix() -> Seq<char> {
    "Hello world from rust! You're running a "@
}

/// Returns the architecture's label: always exactly one of the five fixed
/// strings, and the same one on every call for a given `arch`.
pub fn get_arch_name(arch: Arch) -> (r: &'static str)
    ensures
        r@ == arch_label(arch),
{
    match arch {
        Arch::X86 => "x86",
        Arch::X86_64 => "x86_64",
        Arch::Arm => "arm",
        Arch::Aarch64 => "aarch64",
        Arch::Unknown => "unknown",
    }
}

/// The label is always one of the five fixed enumeration values.
pub proof fn lemma_arch_label_fixed(arch: Arch)
    ensures
        arch_label(arch) == "x86"@ || arch_label(arch) == "x86_64"@
            || arch_label(arch) == "arm"@ || arch_label(arch) == "aarch64"@
            || arch_label(arch) == "unknown"@,
{
}

/// Returns the greeting: the fixed prefix followed by the architecture label.
pub fn print_hello(arch: Arch) -> (r: String)
    ensures
        r@ == greeting_prefix() + arch_label(arch),
{
    let mut s = String::new();
    s.append("Hello world from rust! You're running a ");
    s.append(get_arch_name(arch));
    proof {
        assert(s@ =~= greeting_prefix() + arch_label(arch));
    }
    s
}

} // verus!
