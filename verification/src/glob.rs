//! The glob engine: compiled patterns and the set that matches them together.
//!
//! Everything in this file states what the `globset` crate does; none of it is
//! proved here.

use vstd::prelude::*;
use globset::{Glob, GlobBuilder, GlobSet, GlobSetBuilder};

verus! {

#[verifier::external_type_specification]
#[verifier::external_body]
pub struct ExGlob(globset::Glob);

#[verifier::external_type_specification]
#[verifier::external_body]
pub struct ExGlobSetBuilder(globset::GlobSetBuilder);

#[verifier::external_type_specification]
#[verifier::external_body]
pub struct ExGlobSet(globset::GlobSet);

#[verifier::external_type_specification]
#[verifier::external_body]
pub struct ExGlobError(globset::Error);

/// Whether `pattern` is a valid glob when `/` is a literal separator.
pub uninterp spec fn glob_compiles(pattern: Seq<char>) -> bool;

/// The pattern text that a compiled glob was built from.
pub uninterp spec fn glob_source(glob: Glob) -> Seq<char>;

/// The pattern texts that a builder holds, in the order they were added.
pub uninterp spec fn builder_globs(builder: GlobSetBuilder) -> Seq<Seq<char>>;

/// Whether a set can be built from these pattern texts.
pub uninterp spec fn set_builds(patterns: Seq<Seq<char>>) -> bool;

/// The pattern texts that a set holds, by sequence number.
pub uninterp spec fn set_globs(set: GlobSet) -> Seq<Seq<char>>;

/// Whether the glob `pattern`, with `/` as a literal separator, matches `path`.
pub uninterp spec fn glob_matches(pattern: Seq<char>, path: Seq<char>) -> bool;

/// A path written with `/` alone. The engine reads a backslash in a path as a
/// separator on some platforms and as an ordinary character on others.
pub open spec fn is_portable(path: Seq<char>) -> bool {
    !path.contains('\\')
}

/// `GlobBuilder::new(pattern).literal_separator(true).build()`: parses the
/// pattern. It succeeds exactly on the valid globs, and the glob it returns
/// remembers the pattern text. A backslash is kept out, because whether it
/// escapes depends on the platform.
#[verifier::external_body]
pub(crate) fn compile_glob(pattern: &str) -> (res: Result<Glob, globset::Error>)
    requires
        !pattern@.contains('\\'),
    ensures
        res is Ok <==> glob_compiles(pattern@),
        res is Ok ==> glob_source(res->Ok_0) == pattern@,
{
    GlobBuilder::new(pattern).literal_separator(true).build()
}

/// `GlobSetBuilder::new`: a builder that holds no pattern.
pub assume_specification[ GlobSetBuilder::new ]() -> (builder: GlobSetBuilder)
    ensures
        builder_globs(builder) == Seq::<Seq<char>>::empty(),
;

/// `GlobSetBuilder::add`: appends the glob to the builder's list.
#[verifier::external_body]
pub(crate) fn builder_add(builder: &mut GlobSetBuilder, glob: Glob)
    ensures
        builder_globs(*final(builder)) == builder_globs(*old(builder)).push(glob_source(glob)),
{
    builder.add(glob);
}

/// `GlobSetBuilder::build`: compiles the builder's globs into one set, which
/// numbers them in the order they were added. Whether that succeeds depends on
/// the patterns alone.
pub assume_specification[ GlobSetBuilder::build ](builder: &GlobSetBuilder) -> (res: Result<
    GlobSet,
    globset::Error,
>)
    ensures
        res is Ok <==> set_builds(builder_globs(*builder)),
        res is Ok ==> set_globs(res->Ok_0) == builder_globs(*builder),
;

/// `GlobSet::matches`: the sequence numbers of the globs that match `path`,
/// ascending and without repeats. For a portable path these are exactly the
/// numbers of the matching globs.
#[verifier::external_body]
pub(crate) fn set_matches(set: &GlobSet, path: &str) -> (hits: Vec<usize>)
    ensures
        forall|k: int| 0 <= k < hits@.len() ==> #[trigger] hits@[k] < set_globs(*set).len(),
        forall|a: int, b: int| 0 <= a < b < hits@.len() ==> hits@[a] < hits@[b],
        is_portable(path@) ==> forall|k: int|
            0 <= k < hits@.len() ==> glob_matches(
                set_globs(*set)[#[trigger] hits@[k] as int],
                path@,
            ),
        is_portable(path@) ==> forall|i: int|
            0 <= i < set_globs(*set).len() && glob_matches(#[trigger] set_globs(*set)[i], path@)
                ==> exists|k: int| 0 <= k < hits@.len() && hits@[k] == i,
{
    set.matches(path)
}

} // verus!
