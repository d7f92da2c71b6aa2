//! Unqualified names of variables and attributes.
use crate::errors::Error;
use crate::strings::{owned, push_str, str_eq};
use vstd::prelude::*;

verus! {

/// An attribute index: either a string or the keyword `others`.
#[derive(Clone, Debug, PartialEq, Eq, Hash)]
pub enum StringOrOthers {
    Str(String),
    Others,
}

impl StringOrOthers {
    /// Whether both are the same index.
    pub open spec fn same(&self, other: &StringOrOthers) -> bool {
        match (self, other) {
            (StringOrOthers::Str(a), StringOrOthers::Str(b)) => a@ == b@,
            (StringOrOthers::Others, StringOrOthers::Others) => true,
            _ => false,
        }
    }

    /// Whether both are the same index.
    pub fn is_same(&self, other: &StringOrOthers) -> (r: bool)
        ensures
            r == self.same(other),
    {
        match (self, other) {
            (StringOrOthers::Str(a), StringOrOthers::Str(b)) => *a == *b,
            (StringOrOthers::Others, StringOrOthers::Others) => true,
            _ => false,
        }
    }

    /// A copy.
    pub fn dup(&self) -> (r: StringOrOthers)
        ensures
            r == *self,
    {
        match self {
            StringOrOthers::Str(s) => StringOrOthers::Str(s.clone()),
            StringOrOthers::Others => StringOrOthers::Others,
        }
    }

    /// How the index is displayed.
    pub open spec fn description(&self) -> Seq<char> {
        match self {
            StringOrOthers::Others => "others"@,
            StringOrOthers::Str(s) => s@,
        }
    }

    /// Displays the index.
    pub fn describe(&self) -> (r: String)
        ensures
            r@ == self.description(),
    {
        match self {
            StringOrOthers::Others => owned("others"),
            StringOrOthers::Str(s) => s.clone(),
        }
    }
}

/// An unqualified name, which could be either an attribute or variable.
#[derive(Clone, Debug, PartialEq, Eq, Hash)]
pub enum SimpleName {
    /// Either variable or attribute name, lower-cased
    Name(String),
    BodySuffix(String),
    Body(String),
    DefaultSwitches(StringOrOthers),
    DotReplacement,
    ExcludedSourceFiles,
    ExecDir,
    Executable(String),
    ExternallyBuilt,
    GlobalConfigurationPragmas,
    Languages,
    LibraryDir,
    LibraryInterface,
    LibraryKind,
    LibraryName,
    LibraryOptions,
    LibraryStandalone,
    LibraryVersion,
    LinkerOptions,
    LocalConfigurationPragmas,
    Main,
    ObjectDir,
    ProjectFiles,
    SharedLibraryPrefix,
    SourceDirs,
    SourceFiles,
    Spec(String),
    SpecSuffix(String),
    SourceListFile,
    Switches(StringOrOthers),
    Target,
    VCSKind,
    VCSRepositoryRoot,
}

/// The attribute named by a lower-cased identifier and its optional index,
/// or `None` when this is not a valid attribute.
pub open spec fn spec_new_attr(lower: Seq<char>, index: Option<StringOrOthers>) -> Option<SimpleName> {
    if lower == "body_suffix"@ && index matches Some(StringOrOthers::Str(_)) {
        Some(SimpleName::BodySuffix(index->0->0))
    }
    else if lower == "body"@ && index matches Some(StringOrOthers::Str(_)) {
        Some(SimpleName::Body(index->0->0))
    }
    else if lower == "default_switches"@ && index is Some {
        Some(SimpleName::DefaultSwitches(index->0))
    }
    else if lower == "dot_replacement"@ && index is None {
        Some(SimpleName::DotReplacement)
    }
    else if lower == "excluded_source_files"@ && index is None {
        Some(SimpleName::ExcludedSourceFiles)
    }
    else if lower == "exec_dir"@ && index is None {
        Some(SimpleName::ExecDir)
    }
    else if lower == "executable"@ && index matches Some(StringOrOthers::Str(_)) {
        Some(SimpleName::Executable(index->0->0))
    }
    else if lower == "externally_built"@ && index is None {
        Some(SimpleName::ExternallyBuilt)
    }
    else if lower == "global_configuration_pragmas"@ && index is None {
        Some(SimpleName::GlobalConfigurationPragmas)
    }
    else if lower == "languages"@ && index is None {
        Some(SimpleName::Languages)
    }
    else if lower == "library_dir"@ && index is None {
        Some(SimpleName::LibraryDir)
    }
    else if lower == "library_interface"@ && index is None {
        Some(SimpleName::LibraryInterface)
    }
    else if lower == "library_kind"@ && index is None {
        Some(SimpleName::LibraryKind)
    }
    else if lower == "library_name"@ && index is None {
        Some(SimpleName::LibraryName)
    }
    else if lower == "library_options"@ && index is None {
        Some(SimpleName::LibraryOptions)
    }
    else if lower == "library_standalone"@ && index is None {
        Some(SimpleName::LibraryStandalone)
    }
    else if lower == "library_version"@ && index is None {
        Some(SimpleName::LibraryVersion)
    }
    else if lower == "linker_options"@ && index is None {
        Some(SimpleName::LinkerOptions)
    }
    else if lower == "local_configuration_pragmas"@ && index is None {
        Some(SimpleName::LocalConfigurationPragmas)
    }
    else if lower == "main"@ && index is None {
        Some(SimpleName::Main)
    }
    else if lower == "object_dir"@ && index is None {
        Some(SimpleName::ObjectDir)
    }
    else if lower == "project_files"@ && index is None {
        Some(SimpleName::ProjectFiles)
    }
    else if lower == "shared_library_prefix"@ && index is None {
        Some(SimpleName::SharedLibraryPrefix)
    }
    else if lower == "source_dirs"@ && index is None {
        Some(SimpleName::SourceDirs)
    }
    else if lower == "source_files"@ && index is None {
        Some(SimpleName::SourceFiles)
    }
    else if lower == "source_list_file"@ && index is None {
        Some(SimpleName::SourceListFile)
    }
    else if lower == "spec"@ && index matches Some(StringOrOthers::Str(_)) {
        Some(SimpleName::Spec(index->0->0))
    }
    else if lower == "spec_suffix"@ && index matches Some(StringOrOthers::Str(_)) {
        Some(SimpleName::SpecSuffix(index->0->0))
    }
    else if lower == "switches"@ && index is Some {
        Some(SimpleName::Switches(index->0))
    }
    else if lower == "target"@ && index is None {
        Some(SimpleName::Target)
    }
    else if lower == "vcs_kind"@ && index is None {
        Some(SimpleName::VCSKind)
    }
    else if lower == "vcs_repository_root"@ && index is None {
        Some(SimpleName::VCSRepositoryRoot)
    }
    else {
        None
    }
}

/// Whether the attribute uses a case-insensitive index (first element) or
/// a case-insensitive value (second element).
pub open spec fn spec_is_case_insensitive(lower: Seq<char>) -> (bool, bool) {
    if lower == "languages"@ {
        (false, true)
    } else if lower == "body"@ || lower == "spec"@ || lower == "body_suffix"@ || lower
        == "spec_suffix"@ || lower == "switches"@ || lower == "default_switches"@ {
        (true, false)
    } else {
        (false, false)
    }
}

/// The attributes indexed by a language or a unit name (naming scheme,
/// switches) take that index without regard to case: parsing lower-cases
/// it, so `("Ada")` and `("ada")` name the same entry.
pub proof fn law_language_index_case_insensitive(lower: Seq<char>, index: StringOrOthers)
    ensures
        spec_new_attr(lower, Some(index)) matches Some(n) && (n is BodySuffix || n is SpecSuffix || n is Body
            || n is Spec || n is Switches || n is DefaultSwitches) ==> spec_is_case_insensitive(lower).0,
{
    reveal_strlit("languages");
    reveal_strlit("body");
    reveal_strlit("spec");
    reveal_strlit("body_suffix");
    reveal_strlit("spec_suffix");
    reveal_strlit("switches");
    reveal_strlit("default_switches");
    if let Some(n) = spec_new_attr(lower, Some(index)) {
        if n is BodySuffix {
            assert(lower == "body_suffix"@);
            assert(lower.len() != "languages"@.len());
        } else if n is SpecSuffix {
            assert(lower == "spec_suffix"@);
            assert(lower.len() != "languages"@.len());
        } else if n is Body {
            assert(lower == "body"@);
            assert(lower.len() != "languages"@.len());
        } else if n is Spec {
            assert(lower == "spec"@);
            assert(lower.len() != "languages"@.len());
        } else if n is Switches {
            assert(lower == "switches"@);
            assert(lower.len() != "languages"@.len());
        } else if n is DefaultSwitches {
            assert(lower == "default_switches"@);
            assert(lower.len() != "languages"@.len());
        }
    }
}

impl SimpleName {
    /// Builds a variable name.
    pub fn new_var(lower: String) -> (r: Self)
        ensures
            r == SimpleName::Name(lower),
    {
        SimpleName::Name(lower)
    }

    /// Builds an attribute name.
    /// Properly detects whether an index was needed or not.
    pub fn new_attr(lower: String, index: Option<StringOrOthers>) -> (r: Result<Self, Error>)
        ensures
            spec_new_attr(lower@, index) matches Some(n) ==> r == Ok::<SimpleName, Error>(n),
            spec_new_attr(lower@, index) is None ==> (match index {
                None => r matches Err(Error::InvalidAttribute(n)) && n@ == lower@,
                Some(StringOrOthers::Str(i)) => r matches Err(Error::InvalidAttributeWithIndex(n, m))
                    && n@ == lower@ && m@ == i@,
                Some(StringOrOthers::Others) => r matches Err(Error::InvalidAttributeWithOthers(n))
                    && n@ == lower@,
            }),
    {
        let l = lower.as_str();
        if str_eq(l, "body_suffix") && matches!(index, Some(StringOrOthers::Str(_))) {
            match index {
                Some(StringOrOthers::Str(idx)) => return Ok(SimpleName::BodySuffix(idx)),
                _ => {},
            }
        } else if str_eq(l, "body") && matches!(index, Some(StringOrOthers::Str(_))) {
            match index {
                Some(StringOrOthers::Str(idx)) => return Ok(SimpleName::Body(idx)),
                _ => {},
            }
        } else if str_eq(l, "default_switches") && index.is_some() {
            match index {
                Some(idx) => return Ok(SimpleName::DefaultSwitches(idx)),
                _ => {},
            }
        } else if str_eq(l, "dot_replacement") && index.is_none() {
            return Ok(SimpleName::DotReplacement);
        } else if str_eq(l, "excluded_source_files") && index.is_none() {
            return Ok(SimpleName::ExcludedSourceFiles);
        } else if str_eq(l, "exec_dir") && index.is_none() {
            return Ok(SimpleName::ExecDir);
        } else if str_eq(l, "executable") && matches!(index, Some(StringOrOthers::Str(_))) {
            match index {
                Some(StringOrOthers::Str(idx)) => return Ok(SimpleName::Executable(idx)),
                _ => {},
            }
        } else if str_eq(l, "externally_built") && index.is_none() {
            return Ok(SimpleName::ExternallyBuilt);
        } else if str_eq(l, "global_configuration_pragmas") && index.is_none() {
            return Ok(SimpleName::GlobalConfigurationPragmas);
        } else if str_eq(l, "languages") && index.is_none() {
            return Ok(SimpleName::Languages);
        } else if str_eq(l, "library_dir") && index.is_none() {
            return Ok(SimpleName::LibraryDir);
        } else if str_eq(l, "library_interface") && index.is_none() {
            return Ok(SimpleName::LibraryInterface);
        } else if str_eq(l, "library_kind") && index.is_none() {
            return Ok(SimpleName::LibraryKind);
        } else if str_eq(l, "library_name") && index.is_none() {
            return Ok(SimpleName::LibraryName);
        } else if str_eq(l, "library_options") && index.is_none() {
            return Ok(SimpleName::LibraryOptions);
        } else if str_eq(l, "library_standalone") && index.is_none() {
            return Ok(SimpleName::LibraryStandalone);
        } else if str_eq(l, "library_version") && index.is_none() {
            return Ok(SimpleName::LibraryVersion);
        } else if str_eq(l, "linker_options") && index.is_none() {
            return Ok(SimpleName::LinkerOptions);
        } else if str_eq(l, "local_configuration_pragmas") && index.is_none() {
            return Ok(SimpleName::LocalConfigurationPragmas);
        } else if str_eq(l, "main") && index.is_none() {
            return Ok(SimpleName::Main);
        } else if str_eq(l, "object_dir") && index.is_none() {
            return Ok(SimpleName::ObjectDir);
        } else if str_eq(l, "project_files") && index.is_none() {
            return Ok(SimpleName::ProjectFiles);
        } else if str_eq(l, "shared_library_prefix") && index.is_none() {
            return Ok(SimpleName::SharedLibraryPrefix);
        } else if str_eq(l, "source_dirs") && index.is_none() {
            return Ok(SimpleName::SourceDirs);
        } else if str_eq(l, "source_files") && index.is_none() {
            return Ok(SimpleName::SourceFiles);
        } else if str_eq(l, "source_list_file") && index.is_none() {
            return Ok(SimpleName::SourceListFile);
        } else if str_eq(l, "spec") && matches!(index, Some(StringOrOthers::Str(_))) {
            match index {
                Some(StringOrOthers::Str(idx)) => return Ok(SimpleName::Spec(idx)),
                _ => {},
            }
        } else if str_eq(l, "spec_suffix") && matches!(index, Some(StringOrOthers::Str(_))) {
            match index {
                Some(StringOrOthers::Str(idx)) => return Ok(SimpleName::SpecSuffix(idx)),
                _ => {},
            }
        } else if str_eq(l, "switches") && index.is_some() {
            match index {
                Some(idx) => return Ok(SimpleName::Switches(idx)),
                _ => {},
            }
        } else if str_eq(l, "target") && index.is_none() {
            return Ok(SimpleName::Target);
        } else if str_eq(l, "vcs_kind") && index.is_none() {
            return Ok(SimpleName::VCSKind);
        } else if str_eq(l, "vcs_repository_root") && index.is_none() {
            return Ok(SimpleName::VCSRepositoryRoot);
        }
        match index {
            None => Err(Error::InvalidAttribute(lower)),
            Some(StringOrOthers::Str(idx)) => Err(Error::InvalidAttributeWithIndex(lower, idx)),
            Some(StringOrOthers::Others) => Err(Error::InvalidAttributeWithOthers(lower)),
        }
    }

    /// Whether this attribute uses a case-insensitive index (first element of
    /// tuple) or case-insensitive value (second element).
    pub fn is_case_insensitive(lower: &str) -> (r: (bool, bool))
        ensures
            r == spec_is_case_insensitive(lower@),
    {
        if str_eq(lower, "languages") {
            (false, true)
        } else if str_eq(lower, "body") || str_eq(lower, "spec") || str_eq(lower, "body_suffix")
            || str_eq(lower, "spec_suffix") || str_eq(lower, "switches") || str_eq(
            lower,
            "default_switches",
        ) {
            (true, false)
        } else {
            (false, false)
        }
    }

    /// A number that identifies the variant.
    pub open spec fn spec_code(&self) -> int {
        match self {
            SimpleName::Name(_) => 0,
            SimpleName::BodySuffix(_) => 1,
            SimpleName::Body(_) => 2,
            SimpleName::DefaultSwitches(_) => 3,
            SimpleName::DotReplacement => 4,
            SimpleName::ExcludedSourceFiles => 5,
            SimpleName::ExecDir => 6,
            SimpleName::Executable(_) => 7,
            SimpleName::ExternallyBuilt => 8,
            SimpleName::GlobalConfigurationPragmas => 9,
            SimpleName::Languages => 10,
            SimpleName::LibraryDir => 11,
            SimpleName::LibraryInterface => 12,
            SimpleName::LibraryKind => 13,
            SimpleName::LibraryName => 14,
            SimpleName::LibraryOptions => 15,
            SimpleName::LibraryStandalone => 16,
            SimpleName::LibraryVersion => 17,
            SimpleName::LinkerOptions => 18,
            SimpleName::LocalConfigurationPragmas => 19,
            SimpleName::Main => 20,
            SimpleName::ObjectDir => 21,
            SimpleName::ProjectFiles => 22,
            SimpleName::SharedLibraryPrefix => 23,
            SimpleName::SourceDirs => 24,
            SimpleName::SourceFiles => 25,
            SimpleName::Spec(_) => 26,
            SimpleName::SpecSuffix(_) => 27,
            SimpleName::SourceListFile => 28,
            SimpleName::Switches(_) => 29,
            SimpleName::Target => 30,
            SimpleName::VCSKind => 31,
            SimpleName::VCSRepositoryRoot => 32,
        }
    }

    /// The number identifying the variant.
    pub fn code(&self) -> (r: u8)
        ensures
            r == self.spec_code(),
    {
        match self {
            SimpleName::Name(_) => 0,
            SimpleName::BodySuffix(_) => 1,
            SimpleName::Body(_) => 2,
            SimpleName::DefaultSwitches(_) => 3,
            SimpleName::DotReplacement => 4,
            SimpleName::ExcludedSourceFiles => 5,
            SimpleName::ExecDir => 6,
            SimpleName::Executable(_) => 7,
            SimpleName::ExternallyBuilt => 8,
            SimpleName::GlobalConfigurationPragmas => 9,
            SimpleName::Languages => 10,
            SimpleName::LibraryDir => 11,
            SimpleName::LibraryInterface => 12,
            SimpleName::LibraryKind => 13,
            SimpleName::LibraryName => 14,
            SimpleName::LibraryOptions => 15,
            SimpleName::LibraryStandalone => 16,
            SimpleName::LibraryVersion => 17,
            SimpleName::LinkerOptions => 18,
            SimpleName::LocalConfigurationPragmas => 19,
            SimpleName::Main => 20,
            SimpleName::ObjectDir => 21,
            SimpleName::ProjectFiles => 22,
            SimpleName::SharedLibraryPrefix => 23,
            SimpleName::SourceDirs => 24,
            SimpleName::SourceFiles => 25,
            SimpleName::Spec(_) => 26,
            SimpleName::SpecSuffix(_) => 27,
            SimpleName::SourceListFile => 28,
            SimpleName::Switches(_) => 29,
            SimpleName::Target => 30,
            SimpleName::VCSKind => 31,
            SimpleName::VCSRepositoryRoot => 32,
        }
    }

    /// Whether both names are the same.
    pub open spec fn same(&self, other: &SimpleName) -> bool {
        &&& self.spec_code() == other.spec_code()
        &&& match (self, other) {
            (SimpleName::Name(a), SimpleName::Name(b)) => a@ == b@,
            (SimpleName::BodySuffix(a), SimpleName::BodySuffix(b)) => a@ == b@,
            (SimpleName::Body(a), SimpleName::Body(b)) => a@ == b@,
            (SimpleName::DefaultSwitches(a), SimpleName::DefaultSwitches(b)) => a.same(b),
            (SimpleName::Executable(a), SimpleName::Executable(b)) => a@ == b@,
            (SimpleName::Spec(a), SimpleName::Spec(b)) => a@ == b@,
            (SimpleName::SpecSuffix(a), SimpleName::SpecSuffix(b)) => a@ == b@,
            (SimpleName::Switches(a), SimpleName::Switches(b)) => a.same(b),
            _ => true,
        }
    }

    /// Whether both names are the same.
    pub fn is_same(&self, other: &SimpleName) -> (r: bool)
        ensures
            r == self.same(other),
    {
        if self.code() != other.code() {
            return false;
        }
        match (self, other) {
            (SimpleName::Name(a), SimpleName::Name(b)) => *a == *b,
            (SimpleName::BodySuffix(a), SimpleName::BodySuffix(b)) => *a == *b,
            (SimpleName::Body(a), SimpleName::Body(b)) => *a == *b,
            (SimpleName::DefaultSwitches(a), SimpleName::DefaultSwitches(b)) => a.is_same(b),
            (SimpleName::Executable(a), SimpleName::Executable(b)) => *a == *b,
            (SimpleName::Spec(a), SimpleName::Spec(b)) => *a == *b,
            (SimpleName::SpecSuffix(a), SimpleName::SpecSuffix(b)) => *a == *b,
            (SimpleName::Switches(a), SimpleName::Switches(b)) => a.is_same(b),
            _ => true,
        }
    }

    /// A copy of the name.
    pub fn dup(&self) -> (r: SimpleName)
        ensures
            r == *self,
    {
        match self {
            SimpleName::Name(a) => SimpleName::Name(a.clone()),
            SimpleName::BodySuffix(a) => SimpleName::BodySuffix(a.clone()),
            SimpleName::Body(a) => SimpleName::Body(a.clone()),
            SimpleName::DefaultSwitches(a) => SimpleName::DefaultSwitches(a.dup()),
            SimpleName::DotReplacement => SimpleName::DotReplacement,
            SimpleName::ExcludedSourceFiles => SimpleName::ExcludedSourceFiles,
            SimpleName::ExecDir => SimpleName::ExecDir,
            SimpleName::Executable(a) => SimpleName::Executable(a.clone()),
            SimpleName::ExternallyBuilt => SimpleName::ExternallyBuilt,
            SimpleName::GlobalConfigurationPragmas => SimpleName::GlobalConfigurationPragmas,
            SimpleName::Languages => SimpleName::Languages,
            SimpleName::LibraryDir => SimpleName::LibraryDir,
            SimpleName::LibraryInterface => SimpleName::LibraryInterface,
            SimpleName::LibraryKind => SimpleName::LibraryKind,
            SimpleName::LibraryName => SimpleName::LibraryName,
            SimpleName::LibraryOptions => SimpleName::LibraryOptions,
            SimpleName::LibraryStandalone => SimpleName::LibraryStandalone,
            SimpleName::LibraryVersion => SimpleName::LibraryVersion,
            SimpleName::LinkerOptions => SimpleName::LinkerOptions,
            SimpleName::LocalConfigurationPragmas => SimpleName::LocalConfigurationPragmas,
            SimpleName::Main => SimpleName::Main,
            SimpleName::ObjectDir => SimpleName::ObjectDir,
            SimpleName::ProjectFiles => SimpleName::ProjectFiles,
            SimpleName::SharedLibraryPrefix => SimpleName::SharedLibraryPrefix,
            SimpleName::SourceDirs => SimpleName::SourceDirs,
            SimpleName::SourceFiles => SimpleName::SourceFiles,
            SimpleName::Spec(a) => SimpleName::Spec(a.clone()),
            SimpleName::SpecSuffix(a) => SimpleName::SpecSuffix(a.clone()),
            SimpleName::SourceListFile => SimpleName::SourceListFile,
            SimpleName::Switches(a) => SimpleName::Switches(a.dup()),
            SimpleName::Target => SimpleName::Target,
            SimpleName::VCSKind => SimpleName::VCSKind,
            SimpleName::VCSRepositoryRoot => SimpleName::VCSRepositoryRoot,
        }
    }

    /// How the name is displayed.
    pub open spec fn description(&self) -> Seq<char> {
        match self {
            SimpleName::Name(s) => "."@ + s@,
            SimpleName::BodySuffix(i) => "'body_suffix("@ + i@ + ")"@,
            SimpleName::Body(i) => "'body("@ + i@ + ")"@,
            SimpleName::DefaultSwitches(i) => "'default_switches("@ + i.description() + ")"@,
            SimpleName::DotReplacement => "'dot_replacement"@,
            SimpleName::ExcludedSourceFiles => "'excluded_source_files"@,
            SimpleName::ExecDir => "'exec_dir"@,
            SimpleName::Executable(i) => "'executable("@ + i@ + ")"@,
            SimpleName::ExternallyBuilt => "'externally_build"@,
            SimpleName::GlobalConfigurationPragmas => "'global_configuration_pragmas"@,
            SimpleName::Languages => "'languages"@,
            SimpleName::LibraryDir => "'library_dir"@,
            SimpleName::LibraryInterface => "'library_interface"@,
            SimpleName::LibraryKind => "'library_kind"@,
            SimpleName::LibraryName => "'library_name"@,
            SimpleName::LibraryOptions => "'library_options"@,
            SimpleName::LibraryStandalone => "'library_standalone"@,
            SimpleName::LibraryVersion => "'library_version"@,
            SimpleName::LinkerOptions => "'linker_options"@,
            SimpleName::LocalConfigurationPragmas => "'local_configuration_pragmas"@,
            SimpleName::Main => "'main"@,
            SimpleName::ObjectDir => "'object_dir"@,
            SimpleName::ProjectFiles => "'project_files"@,
            SimpleName::SharedLibraryPrefix => "'shared_library_prefix"@,
            SimpleName::SourceDirs => "'source_dirs"@,
            SimpleName::SourceFiles => "'source_files"@,
            SimpleName::Spec(i) => "'spec("@ + i@ + ")"@,
            SimpleName::SpecSuffix(i) => "'spec_suffix("@ + i@ + ")"@,
            SimpleName::SourceListFile => "'source_list_file"@,
            SimpleName::Switches(i) => "'switches("@ + i.description() + ")"@,
            SimpleName::Target => "'target"@,
            SimpleName::VCSKind => "'vcs_kind"@,
            SimpleName::VCSRepositoryRoot => "'vcs_repository_root"@,
        }
    }

    /// Displays the name.
    pub fn describe(&self) -> (r: String)
        ensures
            r@ == self.description(),
    {
        let mut r = String::new();
        match self {
            SimpleName::Name(s) => {
                push_str(&mut r, ".");
                push_str(&mut r, s.as_str());
            },
            SimpleName::BodySuffix(i) => {
                push_str(&mut r, "'body_suffix(");
                push_str(&mut r, i.as_str());
                push_str(&mut r, ")");
            },
            SimpleName::Body(i) => {
                push_str(&mut r, "'body(");
                push_str(&mut r, i.as_str());
                push_str(&mut r, ")");
            },
            SimpleName::DefaultSwitches(i) => {
                push_str(&mut r, "'default_switches(");
                let d = i.describe();
                push_str(&mut r, d.as_str());
                push_str(&mut r, ")");
            },
            SimpleName::DotReplacement => push_str(&mut r, "'dot_replacement"),
            SimpleName::ExcludedSourceFiles => push_str(&mut r, "'excluded_source_files"),
            SimpleName::ExecDir => push_str(&mut r, "'exec_dir"),
            SimpleName::Executable(i) => {
                push_str(&mut r, "'executable(");
                push_str(&mut r, i.as_str());
                push_str(&mut r, ")");
            },
            SimpleName::ExternallyBuilt => push_str(&mut r, "'externally_build"),
            SimpleName::GlobalConfigurationPragmas => push_str(&mut r, "'global_configuration_pragmas"),
            SimpleName::Languages => push_str(&mut r, "'languages"),
            SimpleName::LibraryDir => push_str(&mut r, "'library_dir"),
            SimpleName::LibraryInterface => push_str(&mut r, "'library_interface"),
            SimpleName::LibraryKind => push_str(&mut r, "'library_kind"),
            SimpleName::LibraryName => push_str(&mut r, "'library_name"),
            SimpleName::LibraryOptions => push_str(&mut r, "'library_options"),
            SimpleName::LibraryStandalone => push_str(&mut r, "'library_standalone"),
            SimpleName::LibraryVersion => push_str(&mut r, "'library_version"),
            SimpleName::LinkerOptions => push_str(&mut r, "'linker_options"),
            SimpleName::LocalConfigurationPragmas => push_str(&mut r, "'local_configuration_pragmas"),
            SimpleName::Main => push_str(&mut r, "'main"),
            SimpleName::ObjectDir => push_str(&mut r, "'object_dir"),
            SimpleName::ProjectFiles => push_str(&mut r, "'project_files"),
            SimpleName::SharedLibraryPrefix => push_str(&mut r, "'shared_library_prefix"),
            SimpleName::SourceDirs => push_str(&mut r, "'source_dirs"),
            SimpleName::SourceFiles => push_str(&mut r, "'source_files"),
            SimpleName::Spec(i) => {
                push_str(&mut r, "'spec(");
                push_str(&mut r, i.as_str());
                push_str(&mut r, ")");
            },
            SimpleName::SpecSuffix(i) => {
                push_str(&mut r, "'spec_suffix(");
                push_str(&mut r, i.as_str());
                push_str(&mut r, ")");
            },
            SimpleName::SourceListFile => push_str(&mut r, "'source_list_file"),
            SimpleName::Switches(i) => {
                push_str(&mut r, "'switches(");
                let d = i.describe();
                push_str(&mut r, d.as_str());
                push_str(&mut r, ")");
            },
            SimpleName::Target => push_str(&mut r, "'target"),
            SimpleName::VCSKind => push_str(&mut r, "'vcs_kind"),
            SimpleName::VCSRepositoryRoot => push_str(&mut r, "'vcs_repository_root"),
        }
        r
    }
}


/// Two names that are the same as a third one are the same.
pub proof fn lemma_same_shared(a: SimpleName, b: SimpleName, c: SimpleName)
    requires
        a.same(&b),
        a.same(&c),
    ensures
        b.same(&c),
{
}

} // verus!
