//! Page types, stored in the FIL header's two-byte type field.

use vstd::prelude::*;

verus! {

/// What a page is used for.
#[derive(Debug, Clone, Copy, PartialEq, Eq, Structural)]
pub enum PageType {
    /// Newly allocated, not yet initialised.
    Allocated,
    /// Undo log page.
    UndoLog,
    /// File segment inode.
    Inode,
    /// Insert buffer free list.
    IbufFreeList,
    /// Insert buffer bitmap.
    IbufBitmap,
    /// System-internal page.
    System,
    /// Transaction system header.
    TrxSystem,
    /// Tablespace (FSP) header.
    FspHeader,
    /// Extent descriptor page.
    ExtentDescriptor,
    /// BLOB page.
    Blob,
    /// B+Tree node (index page).
    Index,
}

/// The on-disk code of each page type.
pub open spec fn page_type_code(t: PageType) -> u16 {
    match t {
        PageType::Allocated => 0,
        PageType::UndoLog => 2,
        PageType::Inode => 3,
        PageType::IbufFreeList => 4,
        PageType::IbufBitmap => 5,
        PageType::System => 6,
        PageType::TrxSystem => 7,
        PageType::FspHeader => 8,
        PageType::ExtentDescriptor => 9,
        PageType::Blob => 10,
        PageType::Index => 17855,
    }
}

/// The page type whose code is `v`, if any.
pub open spec fn page_type_of_code(v: u16) -> Option<PageType> {
    if v == 0 {
        Some(PageType::Allocated)
    } else if v == 2 {
        Some(PageType::UndoLog)
    } else if v == 3 {
        Some(PageType::Inode)
    } else if v == 4 {
        Some(PageType::IbufFreeList)
    } else if v == 5 {
        Some(PageType::IbufBitmap)
    } else if v == 6 {
        Some(PageType::System)
    } else if v == 7 {
        Some(PageType::TrxSystem)
    } else if v == 8 {
        Some(PageType::FspHeader)
    } else if v == 9 {
        Some(PageType::ExtentDescriptor)
    } else if v == 10 {
        Some(PageType::Blob)
    } else if v == 17855 {
        Some(PageType::Index)
    } else {
        None
    }
}

impl PageType {
    pub fn from_u16(value: u16) -> (r: Option<Self>)
        ensures
            r == page_type_of_code(value),
    {
        match value {
            0 => Some(PageType::Allocated),
            2 => Some(PageType::UndoLog),
            3 => Some(PageType::Inode),
            4 => Some(PageType::IbufFreeList),
            5 => Some(PageType::IbufBitmap),
            6 => Some(PageType::System),
            7 => Some(PageType::TrxSystem),
            8 => Some(PageType::FspHeader),
            9 => Some(PageType::ExtentDescriptor),
            10 => Some(PageType::Blob),
            17855 => Some(PageType::Index),
            _ => None,
        }
    }

    pub fn as_u16(self) -> (r: u16)
        ensures
            r == page_type_code(self),
    {
        match self {
            PageType::Allocated => 0,
            PageType::UndoLog => 2,
            PageType::Inode => 3,
            PageType::IbufFreeList => 4,
            PageType::IbufBitmap => 5,
            PageType::System => 6,
            PageType::TrxSystem => 7,
            PageType::FspHeader => 8,
            PageType::ExtentDescriptor => 9,
            PageType::Blob => 10,
            PageType::Index => 17855,
        }
    }
}

/// Decoding a page type's code gives the page type back.
pub proof fn lemma_page_type_code_roundtrip(t: PageType)
    ensures
        page_type_of_code(page_type_code(t)) == Some(t),
{
}

/// A code decodes to a page type exactly when it is that type's code.
pub proof fn lemma_page_type_code_unique(v: u16, t: PageType)
    ensures
        page_type_of_code(v) == Some(t) <==> page_type_code(t) == v,
{
}

} // verus!
