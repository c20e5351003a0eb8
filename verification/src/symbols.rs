//! Symbol and file names for the generated boundary glue: a base symbol
//! from crate, package and type name, and the metadata file a definition is
//! kept under.

use vstd::prelude::*;

use vstd::string::StringExecFns;

verus! {

/// What heck's snake-case conversion makes of a name; the result depends on
/// the characters alone.
pub uninterp spec fn snake_of(s: Seq<char>) -> Seq<char>;

/// Relies on heck's `to_snake_case`: a pure case conversion, and an empty
/// name stays empty.
#[verifier::external_body]
fn to_snake(s: &str) -> (r: String)
    ensures
        r@ == snake_of(s@),
        s@.len() == 0 ==> r@.len() == 0,
{
    heck::ToSnakeCase::to_snake_case(s)
}

/// A dot turned into an underscore; anything else kept.
pub open spec fn spec_undot(c: char) -> char {
    if c == '.' {
        '_'
    } else {
        c
    }
}

/// Relies on `str::replace` with a single-character pattern and a
/// single-character replacement: every match is substituted in place,
/// everything else kept.
#[verifier::external_body]
fn dots_to_underscores(s: &str) -> (r: String)
    ensures
        r@ == s@.map_values(|c: char| spec_undot(c)),
{
    s.replace('.', "_")
}

/// The base of every symbol generated for a type: the crate name, the
/// package with its dots flattened to underscores (left out when empty),
/// and the snake-cased type name, joined by underscores.
pub fn build_symbol_base(crate_name: &str, package: &str, ty_name: &str) -> (r: String)
    ensures
        package@.len() == 0 ==> r@ == crate_name@ + "_"@ + snake_of(ty_name@),
        package@.len() != 0 ==> r@ == crate_name@ + "_"@ + package@.map_values(
            |c: char| spec_undot(c),
        ) + "_"@ + snake_of(ty_name@),
{
    let type_snake = to_snake(ty_name);
    if package.unicode_len() == 0 {
        let r = crate_name.to_owned().concat("_").concat(type_snake.as_str());
        proof {
            assert(r@ =~= crate_name@ + "_"@ + snake_of(ty_name@));
        }
        r
    } else {
        let pkg = dots_to_underscores(package);
        let r = crate_name.to_owned().concat("_").concat(pkg.as_str()).concat("_").concat(
            type_snake.as_str(),
        );
        proof {
            assert(r@ =~= crate_name@ + "_"@ + package@.map_values(|c: char| spec_undot(c)) + "_"@
                + snake_of(ty_name@));
        }
        r
    }
}

/// The file a definition with this signature is kept under, inside the
/// given metadata directory: the signature with a `.json` suffix.
pub fn get_path_by_signature(dir: &str, signature: &str) -> (r: String)
    ensures
        r@ == dir@ + "/"@ + signature@ + ".json"@,
{
    let r = dir.to_owned().concat("/").concat(signature).concat(".json");
    proof {
        assert(r@ =~= dir@ + "/"@ + signature@ + ".json"@);
    }
    r
}

} // verus!
