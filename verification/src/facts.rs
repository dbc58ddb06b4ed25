//! The plain-value side of the hackc declaration and facts bridge: decl-parser
//! options decoded from a flag word, the result of parsing a file's
//! declarations, lookups in it, and the facts record shared with C++.

use vstd::prelude::*;
use sha1::Digest;

verus! {

/// Options of the direct declaration parser.
#[derive(Debug)]
pub struct DeclParserOptions {
    /// Namespace aliases, from the `hhvm.aliased_namespaces` setting.
    pub auto_namespace_map: Vec<(String, String)>,
    /// Bit 0 of the flags.
    pub disable_xhp_element_mangling: bool,
    /// Bit 1 of the flags.
    pub interpret_soft_types_as_like_types: bool,
    /// Bit 2 of the flags.
    pub allow_new_attribute_syntax: bool,
    /// Bit 3 of the flags.
    pub enable_xhp_class_modifier: bool,
    /// Bit 4 of the flags.
    pub php5_compat_mode: bool,
    /// Bit 5 of the flags.
    pub hhvm_compat_mode: bool,
}

/// Bit `n` of `flags` is set.
pub open spec fn flag_bit(flags: i32, n: i32) -> bool {
    (1i32 << n) & flags != 0
}

/// Options of the direct declaration parser: bits 0 to 5 of `flags` turn on
/// one option each; `auto_namespace_map` is kept as given.
pub fn create_direct_decl_parse_options(
    flags: i32,
    auto_namespace_map: Vec<(String, String)>,
) -> (o: Box<DeclParserOptions>)
    ensures
        o.auto_namespace_map == auto_namespace_map,
        o.disable_xhp_element_mangling == flag_bit(flags, 0),
        o.interpret_soft_types_as_like_types == flag_bit(flags, 1),
        o.allow_new_attribute_syntax == flag_bit(flags, 2),
        o.enable_xhp_class_modifier == flag_bit(flags, 3),
        o.php5_compat_mode == flag_bit(flags, 4),
        o.hhvm_compat_mode == flag_bit(flags, 5),
{
    Box::new(
        DeclParserOptions {
            auto_namespace_map,
            disable_xhp_element_mangling: ((1i32 << 0i32) & flags) != 0,
            interpret_soft_types_as_like_types: ((1i32 << 1i32) & flags) != 0,
            allow_new_attribute_syntax: ((1i32 << 2i32) & flags) != 0,
            enable_xhp_class_modifier: ((1i32 << 3i32) & flags) != 0,
            php5_compat_mode: ((1i32 << 4i32) & flags) != 0,
            hhvm_compat_mode: ((1i32 << 5i32) & flags) != 0,
        },
    )
}

/// What the bridge keeps of a file's declarations: the names of its types
/// (classes and type aliases), in the order the parser found them.
#[derive(Debug)]
pub struct DeclsHolder {
    pub type_names: Vec<String>,
}

/// The result of parsing a file's declarations.
#[derive(Debug)]
pub struct DeclResult {
    /// Position-insensitive hash of the declarations.
    pub nopos_hash: u64,
    /// The declarations, serialized.
    pub serialized: Vec<u8>,
    /// The declarations.
    pub decls: Box<DeclsHolder>,
    /// The file had parse errors.
    pub has_errors: bool,
}

/// Whether a type (class or alias) named `symbol` is among the declarations.
pub fn type_exists(result: &DeclResult, symbol: &str) -> (b: bool)
    ensures
        b == exists|j: int|
            0 <= j < result.decls.type_names@.len() && (#[trigger] result.decls.type_names@[j])@
                == symbol@,
{
    let names = &result.decls.type_names;
    let sym = symbol.to_owned();
    let n = names.len();
    let mut j: usize = 0;
    while j < n
        invariant
            n == names@.len(),
            names@ == result.decls.type_names@,
            j <= n,
            sym@ == symbol@,
            forall|j2: int| 0 <= j2 < j ==> (#[trigger] names@[j2])@ != symbol@,
        decreases n - j,
    {
        let same = names[j].eq(&sym);
        if same {
            assert((result.decls.type_names@[j as int])@ == symbol@);
            return true;
        }
        j += 1;
    }
    false
}

/// Name of the SHA-1 digest of a byte sequence.
pub uninterp spec fn sha1_digest(data: Seq<u8>) -> Seq<u8>;

/// Calls `sha1::Sha1::digest` (the one-shot `Digest::digest` of the sha1
/// crate) on `data`. Its contract claims only that the 20 bytes returned are
/// the SHA-1 digest of the bytes passed, named `sha1_digest`.
#[verifier::external_body]
fn sha1_of(data: &[u8]) -> (d: [u8; 20])
    ensures
        d@ == sha1_digest(data@),
{
    sha1::Sha1::digest(data).into()
}

/// The SHA-1 hash of a compilation unit, given its serialization.
pub fn hash_unit(serialized_unit: &[u8]) -> (d: [u8; 20])
    ensures
        d@ == sha1_digest(serialized_unit@),
{
    sha1_of(serialized_unit)
}

/// Kind of a type declaration.
#[derive(Clone, Copy, Debug, PartialEq, Eq, Structural)]
pub enum TypeKind {
    Class,
    Record,
    Interface,
    Enum,
    Trait,
    TypeAlias,
    Unknown,
    Mixed,
}

/// A user attribute and its arguments.
#[derive(Debug, PartialEq)]
pub struct Attribute {
    pub name: String,
    pub args: Vec<String>,
}

/// The facts of a method.
#[derive(Debug, PartialEq)]
pub struct MethodFacts {
    pub attributes: Vec<Attribute>,
}

/// A method and its facts.
#[derive(Debug, PartialEq)]
pub struct Method {
    pub name: String,
    pub methfacts: MethodFacts,
}

/// The facts of a type declaration.
#[derive(Debug, PartialEq)]
pub struct TypeFacts {
    pub base_types: Vec<String>,
    pub kind: TypeKind,
    pub attributes: Vec<Attribute>,
    pub flags: isize,
    pub require_extends: Vec<String>,
    pub require_implements: Vec<String>,
    pub methods: Vec<Method>,
}

/// A type's facts, by the type's name.
#[derive(Debug, PartialEq)]
pub struct TypeFactsByName {
    pub name: String,
    pub typefacts: TypeFacts,
}

/// A module, by name.
#[derive(Debug, PartialEq)]
pub struct ModuleFactsByName {
    pub name: String,
}

/// The facts of a file.
#[derive(Debug, PartialEq)]
pub struct Facts {
    pub types: Vec<TypeFactsByName>,
    pub functions: Vec<String>,
    pub constants: Vec<String>,
    pub file_attributes: Vec<Attribute>,
    pub modules: Vec<ModuleFactsByName>,
}

/// No facts at all.
pub open spec fn facts_empty(f: Facts) -> bool {
    &&& f.types@.len() == 0
    &&& f.functions@.len() == 0
    &&& f.constants@.len() == 0
    &&& f.file_attributes@.len() == 0
    &&& f.modules@.len() == 0
}

impl Default for Facts {
    fn default() -> (f: Facts)
        ensures
            facts_empty(f),
    {
        Facts {
            types: Vec::new(),
            functions: Vec::new(),
            constants: Vec::new(),
            file_attributes: Vec::new(),
            modules: Vec::new(),
        }
    }
}

/// The facts of a file, with the hash of its text, or only the mark that
/// its declarations had errors.
#[derive(Debug)]
pub struct FactsResult {
    pub facts: Facts,
    pub sha1sum: String,
    pub has_errors: bool,
}

impl Default for FactsResult {
    fn default() -> (r: FactsResult)
        ensures
            facts_empty(r.facts),
            r.sha1sum@.len() == 0,
            !r.has_errors,
    {
        FactsResult { facts: Facts::default(), sha1sum: String::new(), has_errors: false }
    }
}

/// The facts of the declarations, passing along the hash of the source text.
/// A result with errors carries no facts and no hash; otherwise `extract`
/// computes the facts, told whether XHP element names are left unmangled
/// (bit 0 of `decl_flags`).
pub fn decls_to_facts_cpp_ffi<F: FnOnce(bool) -> Facts>(
    decl_flags: i32,
    decl_result: &DeclResult,
    sha1sum: &str,
    extract: F,
) -> (r: FactsResult)
    requires
        !decl_result.has_errors ==> call_requires(extract, (flag_bit(decl_flags, 0),)),
    ensures
        r.has_errors == decl_result.has_errors,
        decl_result.has_errors ==> facts_empty(r.facts) && r.sha1sum@.len() == 0,
        !decl_result.has_errors ==> r.sha1sum@ == sha1sum@ && call_ensures(
            extract,
            (flag_bit(decl_flags, 0),),
            r.facts,
        ),
{
    if decl_result.has_errors {
        let d = FactsResult::default();
        FactsResult { has_errors: true, ..d }
    } else {
        let disable_xhp_element_mangling = ((1i32 << 0i32) & decl_flags) != 0;
        let facts = extract(disable_xhp_element_mangling);
        FactsResult { facts, sha1sum: sha1sum.to_owned(), has_errors: false }
    }
}

/// The facts as JSON: empty for a result with errors, else what `render`
/// makes of the facts, the `pretty` choice and the hash.
pub fn facts_to_json_cpp_ffi<F: FnOnce(Facts, bool, String) -> String>(
    facts_result: FactsResult,
    pretty: bool,
    render: F,
) -> (s: String)
    requires
        !facts_result.has_errors ==> call_requires(
            render,
            (facts_result.facts, pretty, facts_result.sha1sum),
        ),
    ensures
        facts_result.has_errors ==> s@.len() == 0,
        !facts_result.has_errors ==> call_ensures(
            render,
            (facts_result.facts, pretty, facts_result.sha1sum),
            s,
        ),
{
    if facts_result.has_errors {
        String::new()
    } else {
        render(facts_result.facts, pretty, facts_result.sha1sum)
    }
}

} // verus!
