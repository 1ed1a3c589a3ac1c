//! The tools that turn a crash into a report, and the choice of one for a target.
use crate::text;
use vstd::prelude::*;

verus! {

broadcast use vstd::string::group_string_axioms;

/// A tool that runs a target on a crash and writes a report.
#[derive(Debug, Clone, Copy, PartialEq, Eq, Structural)]
pub enum Tool {
    San,
    Gdb,
    Python,
    Java,
    Js,
    Lua,
    CSharp,
}

impl Tool {
    /// The name of the tool's executable.
    pub open spec fn executable(self) -> Seq<char> {
        match self {
            Tool::San => "casr-san"@,
            Tool::Gdb => "casr-gdb"@,
            Tool::Python => "casr-python"@,
            Tool::Java => "casr-java"@,
            Tool::Js => "casr-js"@,
            Tool::Lua => "casr-lua"@,
            Tool::CSharp => "casr-csharp"@,
        }
    }

    /// The name of the tool's executable.
    pub fn name(self) -> (r: &'static str)
        ensures
            r@ == self.executable(),
    {
        match self {
            Tool::San => "casr-san",
            Tool::Gdb => "casr-gdb",
            Tool::Python => "casr-python",
            Tool::Java => "casr-java",
            Tool::Js => "casr-js",
            Tool::Lua => "casr-lua",
            Tool::CSharp => "casr-csharp",
        }
    }
}

/// The tool whose executable has this name.
pub fn tool_named(name: &String) -> (r: Option<Tool>)
    ensures
        match r {
            Some(tool) => tool.executable() == name@,
            None => forall|tool: Tool| #[trigger] tool.executable() != name@,
        },
{
    if *name == "casr-san".to_owned() {
        Some(Tool::San)
    } else if *name == "casr-gdb".to_owned() {
        Some(Tool::Gdb)
    } else if *name == "casr-python".to_owned() {
        Some(Tool::Python)
    } else if *name == "casr-java".to_owned() {
        Some(Tool::Java)
    } else if *name == "casr-js".to_owned() {
        Some(Tool::Js)
    } else if *name == "casr-lua".to_owned() {
        Some(Tool::Lua)
    } else if *name == "casr-csharp".to_owned() {
        Some(Tool::CSharp)
    } else {
        None
    }
}

/// No two tools have executables of one name.
pub proof fn law_tool_names_differ(a: Tool, b: Tool)
    requires
        a.executable() == b.executable(),
    ensures
        a == b,
{
    reveal_strlit("casr-san");
    reveal_strlit("casr-gdb");
    reveal_strlit("casr-python");
    reveal_strlit("casr-java");
    reveal_strlit("casr-js");
    reveal_strlit("casr-lua");
    reveal_strlit("casr-csharp");
    let x = a.executable();
    let y = b.executable();
    assert(x.len() == y.len() && x[5] == y[5] && x[6] == y[6]);
}

/// The path of a target as text: empty where it is not Unicode.
pub open spec fn path_text(binary_path: Option<&str>) -> Seq<char> {
    match binary_path {
        Some(path) => path@,
        None => Seq::empty(),
    }
}

/// The tool that the path of a target asks for: by its extension or by the interpreter it names.
pub open spec fn hinted_tool(path: Seq<char>) -> Option<Tool> {
    if ".py"@.is_suffix_of(path) {
        Some(Tool::Python)
    } else if ".js"@.is_suffix_of(path) || "node"@.is_suffix_of(path) {
        Some(Tool::Js)
    } else if "java"@.is_suffix_of(path) || "jazzer"@.is_suffix_of(path) {
        Some(Tool::Java)
    } else if ".lua"@.is_suffix_of(path) || text::occurs_in(path, "lua"@) {
        Some(Tool::Lua)
    } else {
        None
    }
}

/// The symbols of a target show that a sanitizer was built into it.
pub open spec fn is_sanitized(symbols: Seq<String>) -> bool {
    ||| text::texts(symbols).contains("__asan"@)
    ||| text::texts(symbols).contains("__msan"@)
    ||| text::texts(symbols).contains("__tsan"@)
}

/// The tool for a target: the one its path asks for, else the one for sanitizers where its symbols
/// can be read and show one, else the debugger.
pub open spec fn tool_for(path: Seq<char>, symbols: Option<Vec<String>>) -> Tool {
    match hinted_tool(path) {
        Some(tool) => tool,
        None => if symbols matches Some(found) && is_sanitized(found@) {
            Tool::San
        } else {
            Tool::Gdb
        },
    }
}

/// The tool that the path of a target asks for.
pub fn hint_tool(binary_path: Option<&str>) -> (r: Option<Tool>)
    ensures
        r == hinted_tool(path_text(binary_path)),
{
    let path = match binary_path {
        Some(path) => path,
        None => "",
    };
    proof {
        reveal_strlit("");
        assert(path@ =~= path_text(binary_path));
    }
    if text::has_suffix(path, ".py") {
        return Some(Tool::Python);
    }
    if text::has_suffix(path, ".js") || text::has_suffix(path, "node") {
        return Some(Tool::Js);
    }
    if text::has_suffix(path, "java") || text::has_suffix(path, "jazzer") {
        return Some(Tool::Java);
    }
    if text::has_suffix(path, ".lua") || text::has_infix(path, "lua") {
        return Some(Tool::Lua);
    }
    None
}

/// The tool for a target. `symbols` are the sanitizer symbols found in it: none where it cannot be
/// read as a program.
pub fn detect_tool(binary_path: Option<&str>, symbols: &Option<Vec<String>>) -> (r: Tool)
    ensures
        r == tool_for(path_text(binary_path), *symbols),
{
    match hint_tool(binary_path) {
        Some(tool) => {
            return tool;
        },
        None => {},
    }
    match symbols {
        Some(found) => {
            if text::holds(found, &"__asan".to_owned()) || text::holds(found, &"__msan".to_owned())
                || text::holds(found, &"__tsan".to_owned()) {
                return Tool::San;
            }
        },
        None => {},
    }
    Tool::Gdb
}

/// The symbols of a target matter only where its path asks for no tool.
pub proof fn law_a_hint_decides_alone(
    path: Seq<char>,
    symbols: Option<Vec<String>>,
    others: Option<Vec<String>>,
)
    requires
        hinted_tool(path) is Some,
    ensures
        tool_for(path, symbols) == tool_for(path, others),
{
}

/// The text ends in these characters.
pub open spec fn ends(s: Seq<char>, end: Seq<char>) -> bool {
    s.len() >= end.len() && forall|k: int|
        0 <= k < end.len() ==> s[s.len() - end.len() + k] == #[trigger] end[k]
}

proof fn lemma_ends(s: Seq<char>, end: Seq<char>)
    ensures
        end.is_suffix_of(s) <==> ends(s, end),
{
    if s.len() >= end.len() {
        let tail = s.subrange((s.len() - end.len()) as int, s.len() as int);
        if tail == end {
            assert forall|k: int| 0 <= k < end.len() implies s[s.len() - end.len() + k]
                == #[trigger] end[k] by {
                assert(tail[k] == s[s.len() - end.len() + k]);
            }
        }
        if ends(s, end) {
            assert(tail =~= end);
        }
    }
}

/// What the path of a target ends in tells the tool for Python, JavaScript and Java. Of the other
/// paths, those that hold the name of Lua somewhere tell its tool, and no others tell any.
pub proof fn law_the_end_of_a_path_tells_the_tool(path: Seq<char>)
    ensures
        hinted_tool(path) == Some(Tool::Python) <==> ends(path, seq!['.', 'p', 'y']),
        hinted_tool(path) == Some(Tool::Js) <==> ends(path, seq!['.', 'j', 's']) || ends(
            path,
            seq!['n', 'o', 'd', 'e'],
        ),
        hinted_tool(path) == Some(Tool::Java) <==> ends(path, seq!['j', 'a', 'v', 'a']) || ends(
            path,
            seq!['j', 'a', 'z', 'z', 'e', 'r'],
        ),
        hinted_tool(path) == Some(Tool::Lua) <==> text::occurs_in(path, seq!['l', 'u', 'a'])
            && !ends(path, seq!['.', 'p', 'y']) && !ends(path, seq!['.', 'j', 's']) && !ends(
            path,
            seq!['n', 'o', 'd', 'e'],
        ) && !ends(path, seq!['j', 'a', 'v', 'a']) && !ends(
            path,
            seq!['j', 'a', 'z', 'z', 'e', 'r'],
        ),
        hinted_tool(path) is Some ==> hinted_tool(path)->0 != Tool::San && hinted_tool(path)->0
            != Tool::Gdb && hinted_tool(path)->0 != Tool::CSharp,
{
    reveal_strlit(".py");
    reveal_strlit(".js");
    reveal_strlit("node");
    reveal_strlit("java");
    reveal_strlit("jazzer");
    reveal_strlit(".lua");
    reveal_strlit("lua");
    let py = seq!['.', 'p', 'y'];
    let js = seq!['.', 'j', 's'];
    let node = seq!['n', 'o', 'd', 'e'];
    let java = seq!['j', 'a', 'v', 'a'];
    let jazzer = seq!['j', 'a', 'z', 'z', 'e', 'r'];
    let lua = seq!['l', 'u', 'a'];
    assert(".py"@ =~= py);
    assert(".js"@ =~= js);
    assert("node"@ =~= node);
    assert("java"@ =~= java);
    assert("jazzer"@ =~= jazzer);
    assert("lua"@ =~= lua);
    lemma_ends(path, py);
    lemma_ends(path, js);
    lemma_ends(path, node);
    lemma_ends(path, java);
    lemma_ends(path, jazzer);
    lemma_ends(path, ".lua"@);
    assert(py[2] == 'y' && js[2] == 's' && node[3] == 'e' && java[3] == 'a' && jazzer[5] == 'r');
    if ends(path, ".lua"@) {
        let at = path.len() - 3;
        assert(".lua"@[1] == 'l' && ".lua"@[2] == 'u' && ".lua"@[3] == 'a');
        assert(path.subrange(at, at + 3) =~= lua);
        assert(text::occurs_at(path, lua, at));
    }
}

/// Where the path tells no tool, one symbol of a sanitizer among those of the target is enough for
/// the tool for sanitizers, and without one it is the debugger.
pub proof fn law_one_symbol_of_a_sanitizer_is_enough(path: Seq<char>, symbols: Vec<String>, i: int)
    requires
        hinted_tool(path) is None,
    ensures
        0 <= i < symbols@.len() && (symbols@[i]@ == "__asan"@ || symbols@[i]@ == "__msan"@
            || symbols@[i]@ == "__tsan"@) ==> tool_for(path, Some(symbols)) == Tool::San,
        (forall|k: int|
            0 <= k < symbols@.len() ==> #[trigger] symbols@[k]@ != "__asan"@ && symbols@[k]@
                != "__msan"@ && symbols@[k]@ != "__tsan"@) ==> tool_for(path, Some(symbols))
            == Tool::Gdb,
        tool_for(path, None) == Tool::Gdb,
{
    let found = text::texts(symbols@);
    if 0 <= i < symbols@.len() {
        assert(found[i] == symbols@[i]@);
    }
    if is_sanitized(symbols@) {
        let k = choose|k: int|
            0 <= k < found.len() && (found[k] == "__asan"@ || found[k] == "__msan"@ || found[k]
                == "__tsan"@);
        assert(found[k] == symbols@[k]@);
    }
}

/// A path is its own text, and one that is not Unicode tells nothing.
pub proof fn law_a_path_that_is_no_text_tells_nothing(path: &str)
    ensures
        path_text(Some(path)) == path@,
        path_text(None).len() == 0,
        hinted_tool(path_text(None)) is None,
{
    law_the_end_of_a_path_tells_the_tool(path_text(None));
}

} // verus!
