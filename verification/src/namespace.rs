use vstd::prelude::*;

verus! {

/// Namespaces separate different types of directory entries, which might have the same title,
/// stored in the ZIM file format.
///
/// The "new" namespace scheme (format version 6.1 and later) only uses
/// [`Namespace::UserContent`], [`Namespace::Metadata`], [`Namespace::CategoriesArticle`] (well
/// known entries) and [`Namespace::FulltextIndex`] (search indexes). The remaining variants are
/// from the "old" scheme and are still found in version 6.0 and earlier archives.
#[derive(Debug, Copy, Clone, PartialEq, Eq, Hash, Structural)]
pub enum Namespace {
    Layout,
    Articles,
    ArticleMetaData,
    UserContent,
    ImagesFile,
    ImagesText,
    Metadata,
    CategoriesText,
    CategoriesArticleList,
    CategoriesArticle,
    FulltextIndex,
    /// A namespace byte that is not defined by either scheme.
    ///
    /// The format does not reserve the namespace byte, so an unknown value must not abort
    /// parsing.
    Other(u8),
}

impl Namespace {
    /// The byte that stands for this namespace in a directory entry.
    pub open spec fn byte(self) -> u8 {
        match self {
            Namespace::Layout => 0x2d,
            Namespace::Articles => 0x41,
            Namespace::ArticleMetaData => 0x42,
            Namespace::UserContent => 0x43,
            Namespace::ImagesFile => 0x49,
            Namespace::ImagesText => 0x4a,
            Namespace::Metadata => 0x4d,
            Namespace::CategoriesText => 0x55,
            Namespace::CategoriesArticleList => 0x56,
            Namespace::CategoriesArticle => 0x57,
            Namespace::FulltextIndex => 0x58,
            Namespace::Other(raw) => raw,
        }
    }

    /// The namespace that a directory entry's namespace byte stands for.
    pub open spec fn of_byte(raw: u8) -> Namespace {
        if raw == 0x2d {
            Namespace::Layout
        } else if raw == 0x41 {
            Namespace::Articles
        } else if raw == 0x42 {
            Namespace::ArticleMetaData
        } else if raw == 0x43 {
            Namespace::UserContent
        } else if raw == 0x49 {
            Namespace::ImagesFile
        } else if raw == 0x4a {
            Namespace::ImagesText
        } else if raw == 0x4d {
            Namespace::Metadata
        } else if raw == 0x55 {
            Namespace::CategoriesText
        } else if raw == 0x56 {
            Namespace::CategoriesArticleList
        } else if raw == 0x57 {
            Namespace::CategoriesArticle
        } else if raw == 0x58 {
            Namespace::FulltextIndex
        } else {
            Namespace::Other(raw)
        }
    }

    /// The raw byte as stored in the directory entry.
    pub fn as_byte(self) -> (raw: u8)
        ensures
            raw == self.byte(),
    {
        match self {
            Namespace::Layout => 0x2d,
            Namespace::Articles => 0x41,
            Namespace::ArticleMetaData => 0x42,
            Namespace::UserContent => 0x43,
            Namespace::ImagesFile => 0x49,
            Namespace::ImagesText => 0x4a,
            Namespace::Metadata => 0x4d,
            Namespace::CategoriesText => 0x55,
            Namespace::CategoriesArticleList => 0x56,
            Namespace::CategoriesArticle => 0x57,
            Namespace::FulltextIndex => 0x58,
            Namespace::Other(raw) => raw,
        }
    }
}

impl From<u8> for Namespace {
    fn from(value: u8) -> (ns: Namespace) {
        match value {
            0x2d => Namespace::Layout,
            0x41 => Namespace::Articles,
            0x42 => Namespace::ArticleMetaData,
            0x43 => Namespace::UserContent,
            0x49 => Namespace::ImagesFile,
            0x4a => Namespace::ImagesText,
            0x4d => Namespace::Metadata,
            0x55 => Namespace::CategoriesText,
            0x56 => Namespace::CategoriesArticleList,
            0x57 => Namespace::CategoriesArticle,
            0x58 => Namespace::FulltextIndex,
            raw => Namespace::Other(raw),
        }
    }
}

impl vstd::std_specs::convert::FromSpecImpl<u8> for Namespace {
    open spec fn obeys_from_spec() -> bool {
        true
    }

    open spec fn from_spec(value: u8) -> Namespace {
        Namespace::of_byte(value)
    }
}

impl From<Namespace> for u8 {
    fn from(ns: Namespace) -> (raw: u8) {
        ns.as_byte()
    }
}

impl vstd::std_specs::convert::FromSpecImpl<Namespace> for u8 {
    open spec fn obeys_from_spec() -> bool {
        true
    }

    open spec fn from_spec(ns: Namespace) -> u8 {
        ns.byte()
    }
}

/// Every byte survives being read as a namespace and written back, so that path ordering, which
/// compares the raw byte, stays correct for namespaces that neither scheme defines.
pub proof fn namespace_byte_roundtrip(raw: u8)
    ensures
        Namespace::of_byte(raw).byte() == raw,
{
}

/// A namespace that a scheme defines is read back from its own byte, and no two of them share
/// one; a byte is read as [`Namespace::Other`] only when no scheme defines it.
pub proof fn defined_namespaces_are_read_back(ns: Namespace)
    ensures
        ns !is Other ==> Namespace::of_byte(ns.byte()) == ns,
        Namespace::of_byte(ns.byte()) is Other ==> ns is Other,
{
}

/// Which letter stands for which namespace, in both directions; every other byte stands for no
/// namespace that a scheme defines.
pub proof fn namespaces_have_their_letters(ns: Namespace, raw: u8)
    ensures
        Namespace::Layout.byte() == '-' as u8,
        Namespace::Articles.byte() == 'A' as u8,
        Namespace::ArticleMetaData.byte() == 'B' as u8,
        Namespace::UserContent.byte() == 'C' as u8,
        Namespace::ImagesFile.byte() == 'I' as u8,
        Namespace::ImagesText.byte() == 'J' as u8,
        Namespace::Metadata.byte() == 'M' as u8,
        Namespace::CategoriesText.byte() == 'U' as u8,
        Namespace::CategoriesArticleList.byte() == 'V' as u8,
        Namespace::CategoriesArticle.byte() == 'W' as u8,
        Namespace::FulltextIndex.byte() == 'X' as u8,
        Namespace::Other(raw).byte() == raw,
        Namespace::of_byte(raw) == Namespace::Layout <==> raw == '-' as u8,
        Namespace::of_byte(raw) == Namespace::Articles <==> raw == 'A' as u8,
        Namespace::of_byte(raw) == Namespace::ArticleMetaData <==> raw == 'B' as u8,
        Namespace::of_byte(raw) == Namespace::UserContent <==> raw == 'C' as u8,
        Namespace::of_byte(raw) == Namespace::ImagesFile <==> raw == 'I' as u8,
        Namespace::of_byte(raw) == Namespace::ImagesText <==> raw == 'J' as u8,
        Namespace::of_byte(raw) == Namespace::Metadata <==> raw == 'M' as u8,
        Namespace::of_byte(raw) == Namespace::CategoriesText <==> raw == 'U' as u8,
        Namespace::of_byte(raw) == Namespace::CategoriesArticleList <==> raw == 'V' as u8,
        Namespace::of_byte(raw) == Namespace::CategoriesArticle <==> raw == 'W' as u8,
        Namespace::of_byte(raw) == Namespace::FulltextIndex <==> raw == 'X' as u8,
        Namespace::of_byte(raw) is Other ==> Namespace::of_byte(raw) == Namespace::Other(raw),
        Namespace::of_byte(raw) == ns ==> ns.byte() == raw,
{
}

} // verus!
