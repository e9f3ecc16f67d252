//! What the request dispatcher decides: which version of the protocol is
//! agreed on, which tool a call names, and the one-line summaries that go
//! with the answers.

use vstd::prelude::*;
use vstd::string::*;
use crate::text::{chars_of, decimal, push_all, push_str, same_str, string_of, write_decimal};

verus! {

/// The version of the protocol that is agreed on: the one that the client
/// asks for, where it is one of the two that are known; else the newer of
/// the two.
pub open spec fn agreed_version(requested: Option<Seq<char>>) -> Seq<char> {
    if requested == Some("2024-11-05"@) {
        "2024-11-05"@
    } else {
        "2025-06-18"@
    }
}

/// Settles the version of the protocol.
pub fn negotiate_protocol(requested: Option<&str>) -> (r: &'static str)
    ensures
        r@ == agreed_version(
            match requested {
                Some(v) => Some(v@),
                None => None,
            },
        ),
{
    match requested {
        Some(v) => if same_str(v, "2024-11-05") {
            "2024-11-05"
        } else {
            "2025-06-18"
        },
        None => "2025-06-18",
    }
}

/// A tool that can be called.
#[derive(Debug, Clone, Copy, PartialEq, Eq, Structural)]
pub enum Tool {
    Now,
    KeywordsList,
    KeywordsListGlobal,
    Remember,
    Recall,
}

impl Tool {
    /// The name under which the tool is called.
    pub open spec fn name(self) -> Seq<char> {
        match self {
            Tool::Now => "now"@,
            Tool::KeywordsList => "keywords_list"@,
            Tool::KeywordsListGlobal => "keywords_list_global"@,
            Tool::Remember => "remember"@,
            Tool::Recall => "recall"@,
        }
    }

    /// The name under which the tool is called.
    pub fn as_str(&self) -> (r: &'static str)
        ensures
            r@ == self.name(),
    {
        match self {
            Tool::Now => "now",
            Tool::KeywordsList => "keywords_list",
            Tool::KeywordsListGlobal => "keywords_list_global",
            Tool::Remember => "remember",
            Tool::Recall => "recall",
        }
    }

    /// The tool with the given number, in the order in which the tools are
    /// listed.
    pub open spec fn numbered(i: int) -> Tool {
        if i == 0 {
            Tool::Now
        } else if i == 1 {
            Tool::KeywordsList
        } else if i == 2 {
            Tool::KeywordsListGlobal
        } else if i == 3 {
            Tool::Remember
        } else {
            Tool::Recall
        }
    }

    /// The tool with the given number.
    pub fn by_number(i: usize) -> (r: Tool)
        ensures
            r == Tool::numbered(i as int),
    {
        if i == 0 {
            Tool::Now
        } else if i == 1 {
            Tool::KeywordsList
        } else if i == 2 {
            Tool::KeywordsListGlobal
        } else if i == 3 {
            Tool::Remember
        } else {
            Tool::Recall
        }
    }
}

/// The first tool, numbered `from` or higher, that is called `name`.
pub open spec fn tool_named(name: Seq<char>, from: int) -> Option<Tool>
    decreases 5 - from,
{
    if from < 0 || from >= 5 {
        None
    } else if Tool::numbered(from).name() == name {
        Some(Tool::numbered(from))
    } else {
        tool_named(name, from + 1)
    }
}

/// The tool that is called `name`, if there is one.
pub fn find_tool(name: &str) -> (r: Option<Tool>)
    ensures
        r == tool_named(name@, 0),
{
    let mut i: usize = 0;
    while i < 5
        invariant
            i <= 5,
            tool_named(name@, 0) == tool_named(name@, i as int),
        decreases 5 - i,
    {
        let tool = Tool::by_number(i);
        if same_str(tool.as_str(), name) {
            return Some(tool);
        }
        i += 1;
    }
    None
}

/// The summary of a record that was remembered.
pub open spec fn remembered_text(id: Seq<char>, namespace: Seq<char>) -> Seq<char> {
    "已记录记忆："@ + id + "（namespace="@ + namespace + "）"@
}

/// The summary of a record that was remembered.
pub fn remembered_summary(id: &str, namespace: &str) -> (r: String)
    ensures
        r@ == remembered_text(id@, namespace@),
{
    let mut out = chars_of("已记录记忆：");
    push_str(&mut out, id);
    push_str(&mut out, "（namespace=");
    push_str(&mut out, namespace);
    push_str(&mut out, "）");
    string_of(&out)
}

/// The summary of the keywords of one namespace.
pub open spec fn keywords_text(namespace: Seq<char>, total: nat) -> Seq<char> {
    if total == 0 {
        "namespace="@ + namespace + "：暂无关键字。"@
    } else {
        "namespace="@ + namespace + "：共 "@ + decimal(total) + " 个关键字。"@
    }
}

/// The summary of the keywords of one namespace.
pub fn keywords_summary(namespace: &str, total: usize) -> (r: String)
    ensures
        r@ == keywords_text(namespace@, total as nat),
{
    let mut out = chars_of("namespace=");
    push_str(&mut out, namespace);
    if total == 0 {
        push_str(&mut out, "：暂无关键字。");
    } else {
        push_str(&mut out, "：共 ");
        push_all(&mut out, &write_decimal(total));
        push_str(&mut out, " 个关键字。");
    }
    string_of(&out)
}

/// The summary of the keywords of all namespaces.
pub open spec fn global_text(total: nat, scanned: nat) -> Seq<char> {
    if total == 0 {
        "全局：暂无关键字。"@
    } else {
        "全局：共 "@ + decimal(total) + " 个关键字，覆盖 "@ + decimal(scanned) + " 个 namespace。"@
    }
}

/// The summary of the keywords of all namespaces.
pub fn global_summary(total: usize, scanned: usize) -> (r: String)
    ensures
        r@ == global_text(total as nat, scanned as nat),
{
    if total == 0 {
        return String::from_str("全局：暂无关键字。");
    }
    let mut out = chars_of("全局：共 ");
    push_all(&mut out, &write_decimal(total));
    push_str(&mut out, " 个关键字，覆盖 ");
    push_all(&mut out, &write_decimal(scanned));
    push_str(&mut out, " 个 namespace。");
    string_of(&out)
}

} // verus!
