//! The ways in which a request to the store can fail.

use vstd::prelude::*;
use vstd::string::*;

verus! {

/// A required text argument.
#[derive(Clone, Copy, Debug, PartialEq, Eq, Structural)]
pub enum Field {
    Namespace,
    Slice,
    Diary,
}

/// Why an operation was refused.
#[derive(Clone, Copy, Debug, PartialEq, Eq, Structural)]
pub enum MemoryError {
    /// The namespace does not have exactly two usable segments.
    InvalidNamespace,
    /// A required text argument is missing or blank.
    EmptyField(Field),
    /// The keywords argument is missing or is not a list.
    KeywordsNotArray,
    /// No keyword is left after normalization.
    EmptyKeywords,
    /// The importance is outside 1..=5.
    InvalidImportance,
    /// The time text is blank.
    InvalidTime,
    /// The time text is neither RFC 3339 nor a calendar date.
    UnsupportedTimeFormat,
    /// The stored index does not describe a consistent index.
    IndexCorrupt,
    /// A record that the index points at could not be read back.
    RecordUnreadable,
}

impl Field {
    /// The argument's name as callers write it.
    pub open spec fn name(self) -> Seq<char> {
        match self {
            Field::Namespace => "namespace"@,
            Field::Slice => "slice"@,
            Field::Diary => "diary"@,
        }
    }

    /// The argument's name as callers write it.
    pub fn key(&self) -> (r: &'static str)
        ensures
            r@ == self.name(),
    {
        match self {
            Field::Namespace => "namespace",
            Field::Slice => "slice",
            Field::Diary => "diary",
        }
    }
}

impl MemoryError {
    /// The user-facing text of the error.
    pub open spec fn text(self) -> Seq<char> {
        match self {
            MemoryError::InvalidNamespace => "namespace 必须为 {userId}/{projectId}"@,
            MemoryError::EmptyField(f) => f.name() + " 不能为空"@,
            MemoryError::KeywordsNotArray => "keywords 必须是字符串数组"@,
            MemoryError::EmptyKeywords => "keywords 不能为空"@,
            MemoryError::InvalidImportance => "importance 必须在 1~5"@,
            MemoryError::InvalidTime => "时间不能为空"@,
            MemoryError::UnsupportedTimeFormat => "时间格式不支持：仅支持 RFC3339 或 YYYY-MM-DD"@,
            MemoryError::IndexCorrupt => "index.json 内容不一致"@,
            MemoryError::RecordUnreadable => "读取记忆记录失败"@,
        }
    }

    /// The user-facing text of the error.
    pub fn message(&self) -> (r: String)
        ensures
            r@ == self.text(),
    {
        match self {
            MemoryError::InvalidNamespace => String::from_str(
                "namespace 必须为 {userId}/{projectId}",
            ),
            MemoryError::EmptyField(f) => String::from_str(f.key()).concat(" 不能为空"),
            MemoryError::KeywordsNotArray => String::from_str("keywords 必须是字符串数组"),
            MemoryError::EmptyKeywords => String::from_str("keywords 不能为空"),
            MemoryError::InvalidImportance => String::from_str("importance 必须在 1~5"),
            MemoryError::InvalidTime => String::from_str("时间不能为空"),
            MemoryError::UnsupportedTimeFormat => String::from_str(
                "时间格式不支持：仅支持 RFC3339 或 YYYY-MM-DD",
            ),
            MemoryError::IndexCorrupt => String::from_str("index.json 内容不一致"),
            MemoryError::RecordUnreadable => String::from_str("读取记忆记录失败"),
        }
    }
}

} // verus!
