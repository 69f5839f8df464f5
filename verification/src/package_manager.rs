//! The package managers whose directory layout the tool knows.

use vstd::prelude::*;
use vstd::string::StringExecFns;

verus! {

/// A package manager, or `Auto` where the lock file is to decide.
#[derive(Clone, Copy, PartialEq, Eq, PartialOrd, Ord, Debug, Structural)]
pub enum PackageManager {
    Npm,
    Yarn,
    Pnpm,
    Auto,
}

/// The text of the refusal of `s` as a package manager.
pub open spec fn invalid_variant_message(s: Seq<char>) -> Seq<char> {
    "Invalid variant: "@ + s
}

fn same_text(a: &str, b: &str) -> (same: bool)
    ensures
        same == (a@ == b@),
{
    a.to_owned() == b.to_owned()
}

impl PackageManager {
    /// The name under which the variant is written on the command line.
    pub open spec fn spec_name(self) -> Seq<char> {
        match self {
            PackageManager::Npm => "npm"@,
            PackageManager::Yarn => "yarn"@,
            PackageManager::Pnpm => "pnpm"@,
            PackageManager::Auto => "auto"@,
        }
    }

    /// The name under which the variant is written on the command line.
    pub fn name(self) -> (name: &'static str)
        ensures
            name@ == self.spec_name(),
    {
        match self {
            PackageManager::Npm => "npm",
            PackageManager::Yarn => "yarn",
            PackageManager::Pnpm => "pnpm",
            PackageManager::Auto => "auto",
        }
    }

    /// All variants, in the order of their declaration.
    pub fn value_variants() -> (variants: Vec<PackageManager>)
        ensures
            variants@ == seq![
                PackageManager::Npm,
                PackageManager::Yarn,
                PackageManager::Pnpm,
                PackageManager::Auto,
            ],
    {
        let mut variants: Vec<PackageManager> = Vec::new();
        variants.push(PackageManager::Npm);
        variants.push(PackageManager::Yarn);
        variants.push(PackageManager::Pnpm);
        variants.push(PackageManager::Auto);
        assert(variants@ =~= seq![
            PackageManager::Npm,
            PackageManager::Yarn,
            PackageManager::Pnpm,
            PackageManager::Auto,
        ]);
        variants
    }

    /// The names that the command line accepts, one for each variant and in
    /// the order of [`PackageManager::value_variants`].
    pub fn possible_values() -> (names: Vec<&'static str>)
        ensures
            names@.len() == 4,
            names@[0]@ == PackageManager::Npm.spec_name(),
            names@[1]@ == PackageManager::Yarn.spec_name(),
            names@[2]@ == PackageManager::Pnpm.spec_name(),
            names@[3]@ == PackageManager::Auto.spec_name(),
    {
        let mut names: Vec<&'static str> = Vec::new();
        names.push(PackageManager::Npm.name());
        names.push(PackageManager::Yarn.name());
        names.push(PackageManager::Pnpm.name());
        names.push(PackageManager::Auto.name());
        names
    }

    /// Reads a variant from its name. The name must be written exactly as
    /// [`PackageManager::name`] gives it; any other text is refused with a
    /// message that repeats it.
    pub fn from_str(s: &str) -> (parsed: Result<PackageManager, String>)
        ensures
            match parsed {
                Ok(variant) => s@ == variant.spec_name(),
                Err(message) => {
                    &&& forall|variant: PackageManager| s@ != variant.spec_name()
                    &&& message@ == invalid_variant_message(s@)
                },
            },
    {
        if same_text(s, PackageManager::Npm.name()) {
            Ok(PackageManager::Npm)
        } else if same_text(s, PackageManager::Yarn.name()) {
            Ok(PackageManager::Yarn)
        } else if same_text(s, PackageManager::Pnpm.name()) {
            Ok(PackageManager::Pnpm)
        } else if same_text(s, PackageManager::Auto.name()) {
            Ok(PackageManager::Auto)
        } else {
            Err(String::from_str("Invalid variant: ").concat(s))
        }
    }
}

} // verus!
