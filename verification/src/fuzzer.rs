//! The two layouts of crash directories: that of libFuzzer and that of AFL++.
//!
//! A directory is described by the values below. A path is of any type `P`: nothing here looks into
//! it.
use crate::text;
use vstd::prelude::*;

verus! {

broadcast use vstd::string::group_string_axioms;

/// The fuzzer whose layout a crash directory has.
#[derive(Debug, Clone, Copy, PartialEq, Eq, Structural)]
pub enum FuzzerType {
    LibFuzzer,
    Afl,
}

/// The fuzzer that an option names, or none where it is to be detected.
pub open spec fn chosen(option: Seq<char>) -> Option<FuzzerType> {
    if option == "libfuzzer"@ {
        Some(FuzzerType::LibFuzzer)
    } else if option == "afl"@ {
        Some(FuzzerType::Afl)
    } else {
        None
    }
}

/// The fuzzer that an option names, or none where it is to be detected.
pub fn choose_fuzzer(option: &String) -> (r: Option<FuzzerType>)
    ensures
        r == chosen(option@),
{
    if *option == "libfuzzer".to_owned() {
        Some(FuzzerType::LibFuzzer)
    } else if *option == "afl".to_owned() {
        Some(FuzzerType::Afl)
    } else {
        None
    }
}

/// An entry of the input directory.
#[derive(Debug)]
pub struct InputEntry {
    pub name: String,
    pub is_dir: bool,
    /// Whether a directory `crashes` stands below it.
    pub has_crashes: bool,
}

/// Whether the name of a file begins as libFuzzer names what it found.
pub open spec fn has_libfuzzer_name(name: Seq<char>) -> bool {
    "crash-"@.is_prefix_of(name) || "leak-"@.is_prefix_of(name)
}

/// The fuzzer that a file's name points to.
pub open spec fn named_by(name: Seq<char>) -> Option<FuzzerType> {
    if has_libfuzzer_name(name) {
        Some(FuzzerType::LibFuzzer)
    } else if "id:"@.is_prefix_of(name) || "id-"@.is_prefix_of(name) {
        Some(FuzzerType::Afl)
    } else {
        None
    }
}

/// The fuzzer that the first name which points to one points to.
pub open spec fn first_named(entries: Seq<InputEntry>) -> Option<FuzzerType>
    decreases entries.len(),
{
    if entries.len() == 0 {
        None
    } else if named_by(entries[0].name@) is Some {
        named_by(entries[0].name@)
    } else {
        first_named(entries.skip(1))
    }
}

/// The entry is a fuzzing node's directory.
pub open spec fn is_node(entry: InputEntry) -> bool {
    entry.is_dir && entry.has_crashes
}

/// The fuzzer whose layout an input directory has: AFL++ where a directory `crashes` stands in it
/// or in one of its directories, else what the names point to, else libFuzzer.
pub open spec fn detected(has_crashes: bool, entries: Seq<InputEntry>) -> FuzzerType {
    if has_crashes || exists|i: int| 0 <= i < entries.len() && is_node(#[trigger] entries[i]) {
        FuzzerType::Afl
    } else {
        match first_named(entries) {
            Some(fuzzer) => fuzzer,
            None => FuzzerType::LibFuzzer,
        }
    }
}

fn fuzzer_named_by(name: &str) -> (r: Option<FuzzerType>)
    ensures
        r == named_by(name@),
{
    if text::has_prefix(name, "crash-") || text::has_prefix(name, "leak-") {
        Some(FuzzerType::LibFuzzer)
    } else if text::has_prefix(name, "id:") || text::has_prefix(name, "id-") {
        Some(FuzzerType::Afl)
    } else {
        None
    }
}

/// The fuzzer whose layout an input directory has. `has_crashes` tells whether a directory
/// `crashes` stands in it; `entries` are its entries, in the order in which they are listed.
pub fn detect_fuzzer_type(has_crashes: bool, entries: &Vec<InputEntry>) -> (r: FuzzerType)
    ensures
        r == detected(has_crashes, entries@),
{
    if has_crashes {
        return FuzzerType::Afl;
    }
    let mut i: usize = 0;
    while i < entries.len()
        invariant
            i <= entries.len(),
            forall|j: int| 0 <= j < i ==> !is_node(#[trigger] entries[j]),
        decreases entries.len() - i,
    {
        if entries[i].is_dir && entries[i].has_crashes {
            assert(is_node(entries@[i as int]));
            return FuzzerType::Afl;
        }
        i += 1;
    }
    let mut at: usize = 0;
    assert(entries@.skip(0) == entries@);
    while at < entries.len()
        invariant
            at <= entries.len(),
            !has_crashes,
            forall|j: int| 0 <= j < entries.len() ==> !is_node(#[trigger] entries[j]),
            first_named(entries@) == first_named(entries@.skip(at as int)),
        decreases entries.len() - at,
    {
        match fuzzer_named_by(entries[at].name.as_str()) {
            Some(fuzzer) => {
                return fuzzer;
            },
            None => {},
        }
        assert(entries@.skip(at as int).skip(1) == entries@.skip(at + 1));
        at += 1;
    }
    FuzzerType::LibFuzzer
}

/// A file, or what else stands in a directory.
#[derive(Debug)]
pub struct FileEntry<P> {
    pub path: P,
    pub name: String,
    pub is_file: bool,
}

/// libFuzzer saved a crash under this name: one that it gives, or for LibAFL any that has no dot.
/// A hidden file is none.
pub open spec fn is_libfuzzer_crash(name: Seq<char>) -> bool {
    &&& !"."@.is_prefix_of(name)
    &&& has_libfuzzer_name(name) || !text::occurs_in(name, "."@)
}

/// AFL++ saved a crash under this name.
pub open spec fn is_afl_crash(name: Seq<char>) -> bool {
    "id"@.is_prefix_of(name)
}

/// The entries that are files with a name for which `wanted` holds.
pub open spec fn wanted_files<P>(
    files: Seq<FileEntry<P>>,
    wanted: spec_fn(Seq<char>) -> bool,
) -> Seq<FileEntry<P>> {
    files.filter(|f: FileEntry<P>| f.is_file && wanted(f.name@))
}

/// The paths of those files, in order.
pub open spec fn wanted_paths<P>(
    files: Seq<FileEntry<P>>,
    wanted: spec_fn(Seq<char>) -> bool,
) -> Seq<P> {
    wanted_files(files, wanted).map_values(|f: FileEntry<P>| f.path)
}

proof fn lemma_wanted_paths_push<P>(
    files: Seq<FileEntry<P>>,
    file: FileEntry<P>,
    wanted: spec_fn(Seq<char>) -> bool,
)
    ensures
        wanted_paths(files.push(file), wanted) == if file.is_file && wanted(file.name@) {
            wanted_paths(files, wanted).push(file.path)
        } else {
            wanted_paths(files, wanted)
        },
{
    reveal(Seq::filter);
    assert(files.push(file).drop_last() =~= files);
    assert(wanted_paths(files.push(file), wanted) =~= if file.is_file && wanted(file.name@) {
        wanted_paths(files, wanted).push(file.path)
    } else {
        wanted_paths(files, wanted)
    });
}

fn libfuzzer_crash(name: &str) -> (r: bool)
    ensures
        r == is_libfuzzer_crash(name@),
{
    if text::has_prefix(name, ".") {
        return false;
    }
    text::has_prefix(name, "crash-") || text::has_prefix(name, "leak-") || !text::has_infix(
        name,
        ".",
    )
}

/// The crashes that libFuzzer saved among the entries of a directory, in order.
pub fn collect_libfuzzer_crashes<P>(files: Vec<FileEntry<P>>) -> (r: Vec<P>)
    ensures
        r@ == wanted_paths(files@, |name: Seq<char>| is_libfuzzer_crash(name)),
{
    let ghost all = files@;
    let ghost wanted = |name: Seq<char>| is_libfuzzer_crash(name);
    let mut crashes: Vec<P> = Vec::new();
    proof {
        reveal(Seq::filter);
        assert(wanted_paths(all.take(0), wanted) =~= Seq::empty());
    }
    for file in it: files
        invariant
            it.seq() == all,
            wanted == (|name: Seq<char>| is_libfuzzer_crash(name)),
            crashes@ == wanted_paths(all.take(it.index()), wanted),
    {
        proof {
            lemma_wanted_paths_push(all.take(it.index()), file, wanted);
            assert(all.take(it.index()).push(file) =~= all.take(it.index() + 1));
        }
        if file.is_file && libfuzzer_crash(file.name.as_str()) {
            crashes.push(file.path);
        }
    }
    assert(all.take(all.len() as int) =~= all);
    crashes
}

/// An entry of a fuzzing node's directory.
#[derive(Debug)]
pub struct NodeEntry<P> {
    pub name: String,
    pub is_dir: bool,
    /// What stands in it, where it is a directory that can be listed.
    pub files: Vec<FileEntry<P>>,
}

/// An entry of an AFL++ output directory: a fuzzing node, where it is a directory.
#[derive(Debug)]
pub struct Node<P> {
    pub is_dir: bool,
    /// What stands in its directory `crashes`, where there is one.
    pub crashes: Option<Vec<FileEntry<P>>>,
    /// What stands beside that directory, and that directory once more.
    pub entries: Vec<NodeEntry<P>>,
}

/// An AFL++ output directory.
#[derive(Debug)]
pub struct AflDir<P> {
    /// What stands in its directory `crashes`, where there is one.
    pub crashes: Option<Vec<FileEntry<P>>>,
    pub nodes: Vec<Node<P>>,
}

/// The crashes that AFL++ saved among the entries of a directory.
pub open spec fn afl_paths<P>(files: Seq<FileEntry<P>>) -> Seq<P> {
    wanted_paths(files, |name: Seq<char>| is_afl_crash(name))
}

/// The crashes in a directory `crashes`: none where there is no such directory.
pub open spec fn crashes_dir_paths<P>(crashes: Option<Vec<FileEntry<P>>>) -> Seq<P> {
    match crashes {
        Some(files) => afl_paths(files@),
        None => Seq::empty(),
    }
}

/// An entry of a node's directory under this name holds crashes: AFL++ has `crashes`, and may have
/// `crashes0` and so on beside it.
pub open spec fn has_crashes_name(name: Seq<char>) -> bool {
    "crashes"@.is_prefix_of(name)
}

/// The crashes in one entry of a node's directory.
pub open spec fn entry_paths<P>(entry: NodeEntry<P>) -> Seq<P> {
    if has_crashes_name(entry.name@) && entry.is_dir {
        afl_paths(entry.files@)
    } else {
        Seq::empty()
    }
}

/// The crashes of a node: those of its directory `crashes`, then those of each of its directories
/// whose name begins so. A directory `crashes` among the latter is counted again.
pub open spec fn node_paths<P>(node: Node<P>) -> Seq<P> {
    if node.is_dir {
        crashes_dir_paths(node.crashes) + node.entries@.map_values(
            |entry: NodeEntry<P>| entry_paths(entry),
        ).flatten()
    } else {
        Seq::empty()
    }
}

/// The crashes in an AFL++ output directory: those of its own directory `crashes` where there is
/// one, else those of its nodes, in order.
pub open spec fn afl_crashes<P>(dir: AflDir<P>) -> Seq<P> {
    match dir.crashes {
        Some(files) => afl_paths(files@),
        None => dir.nodes@.map_values(|node: Node<P>| node_paths(node)).flatten(),
    }
}

/// Whether an entry of a node's directory under this name holds crashes.
pub fn is_crashes_name(name: &str) -> (r: bool)
    ensures
        r == has_crashes_name(name@),
{
    text::has_prefix(name, "crashes")
}

fn push_afl_crashes<P>(crashes: &mut Vec<P>, files: Vec<FileEntry<P>>)
    ensures
        final(crashes)@ == old(crashes)@ + afl_paths(files@),
{
    let ghost before = crashes@;
    let ghost all = files@;
    let ghost wanted = |name: Seq<char>| is_afl_crash(name);
    proof {
        reveal(Seq::filter);
        assert(wanted_paths(all.take(0), wanted) =~= Seq::empty());
    }
    for file in it: files
        invariant
            it.seq() == all,
            wanted == (|name: Seq<char>| is_afl_crash(name)),
            crashes@ == before + wanted_paths(all.take(it.index()), wanted),
    {
        proof {
            lemma_wanted_paths_push(all.take(it.index()), file, wanted);
            assert(all.take(it.index()).push(file) =~= all.take(it.index() + 1));
        }
        if file.is_file && text::has_prefix(file.name.as_str(), "id") {
            crashes.push(file.path);
        }
    }
    assert(all.take(all.len() as int) =~= all);
}

fn push_node_crashes<P>(crashes: &mut Vec<P>, node: Node<P>)
    ensures
        final(crashes)@ == old(crashes)@ + node_paths(node),
{
    let ghost before = crashes@;
    let ghost paths = |entry: NodeEntry<P>| entry_paths(entry);
    if !node.is_dir {
        return;
    }
    let Node { is_dir: _, crashes: own, entries } = node;
    match own {
        Some(files) => push_afl_crashes(crashes, files),
        None => {},
    }
    let ghost first = crashes_dir_paths(own);
    let ghost all = entries@;
    assert(all.take(0).map_values(paths) =~= Seq::empty());
    for entry in it: entries
        invariant
            it.seq() == all,
            paths == (|entry: NodeEntry<P>| entry_paths(entry)),
            crashes@ == before + first + all.take(it.index()).map_values(paths).flatten(),
    {
        proof {
            let done = all.take(it.index()).map_values(paths);
            done.lemma_flatten_push(paths(entry));
            assert(done.push(paths(entry)) =~= all.take(it.index() + 1).map_values(paths));
        }
        if text::has_prefix(entry.name.as_str(), "crashes") && entry.is_dir {
            push_afl_crashes(crashes, entry.files);
        }
    }
    assert(all.take(all.len() as int) =~= all);
}

/// The crashes in an AFL++ output directory: those of its own directory `crashes` where there is
/// one, else those of its nodes, in order.
pub fn collect_afl_crashes<P>(dir: AflDir<P>) -> (r: Vec<P>)
    ensures
        r@ == afl_crashes(dir),
{
    let mut crashes: Vec<P> = Vec::new();
    let AflDir { crashes: own, nodes } = dir;
    match own {
        Some(files) => {
            push_afl_crashes(&mut crashes, files);
            return crashes;
        },
        None => {},
    }
    let ghost paths = |node: Node<P>| node_paths(node);
    let ghost all = nodes@;
    assert(all.take(0).map_values(paths) =~= Seq::empty());
    for node in it: nodes
        invariant
            it.seq() == all,
            paths == (|node: Node<P>| node_paths(node)),
            crashes@ == all.take(it.index()).map_values(paths).flatten(),
    {
        proof {
            let done = all.take(it.index()).map_values(paths);
            done.lemma_flatten_push(paths(node));
            assert(done.push(paths(node)) =~= all.take(it.index() + 1).map_values(paths));
        }
        push_node_crashes(&mut crashes, node);
    }
    assert(all.take(all.len() as int) =~= all);
    crashes
}

/// An entry of an AFL++ output directory, with the text of the file `cmdline` in it.
#[derive(Debug)]
pub struct CmdlineEntry {
    pub is_dir: bool,
    /// None where there is no such file or it cannot be read.
    pub cmdline: Option<String>,
}

/// The command line that the text of a file `cmdline` holds: none where it holds no word.
pub open spec fn command_line(cmdline: Option<String>) -> Option<Seq<Seq<char>>> {
    match cmdline {
        Some(content) => if text::words(content@).len() > 0 {
            Some(text::words(content@))
        } else {
            None
        },
        None => None,
    }
}

/// The command line of the first node that has one.
pub open spec fn first_command_line(nodes: Seq<CmdlineEntry>) -> Option<Seq<Seq<char>>>
    decreases nodes.len(),
{
    if nodes.len() == 0 {
        None
    } else if nodes[0].is_dir && command_line(nodes[0].cmdline) is Some {
        command_line(nodes[0].cmdline)
    } else {
        first_command_line(nodes.skip(1))
    }
}

/// The command line under which AFL++ ran the target: that of the directory's own file `cmdline`,
/// else that of the first node that has one.
pub open spec fn afl_command_line(
    own: Option<String>,
    nodes: Seq<CmdlineEntry>,
) -> Option<Seq<Seq<char>>> {
    if command_line(own) is Some {
        command_line(own)
    } else {
        first_command_line(nodes)
    }
}

fn parse_cmdline(cmdline: &Option<String>) -> (r: Option<Vec<String>>)
    ensures
        match r {
            Some(args) => command_line(*cmdline) == Some(text::texts(args@)),
            None => command_line(*cmdline) is None,
        },
{
    match cmdline {
        Some(content) => {
            let args = text::split_words(content.as_str());
            assert(text::texts(args@).len() == args.len());
            if args.len() > 0 {
                Some(args)
            } else {
                None
            }
        },
        None => None,
    }
}

/// The command line under which AFL++ ran the target: that of the directory's own file `cmdline`,
/// else that of the first node that has one.
pub fn read_afl_cmdline(own: &Option<String>, nodes: &Vec<CmdlineEntry>) -> (r: Option<Vec<String>>)
    ensures
        match r {
            Some(args) => afl_command_line(*own, nodes@) == Some(text::texts(args@)),
            None => afl_command_line(*own, nodes@) is None,
        },
{
    let found = parse_cmdline(own);
    if found.is_some() {
        return found;
    }
    let mut i: usize = 0;
    assert(nodes@.skip(0) == nodes@);
    while i < nodes.len()
        invariant
            i <= nodes.len(),
            command_line(*own) is None,
            first_command_line(nodes@) == first_command_line(nodes@.skip(i as int)),
        decreases nodes.len() - i,
    {
        if nodes[i].is_dir {
            let args = parse_cmdline(&nodes[i].cmdline);
            if args.is_some() {
                return args;
            }
        }
        assert(nodes@.skip(i as int).skip(1) == nodes@.skip(i + 1));
        i += 1;
    }
    None
}

/// `path` is that of an entry which is a file with a name for which `wanted` holds.
pub open spec fn is_wanted_path<P>(
    files: Seq<FileEntry<P>>,
    wanted: spec_fn(Seq<char>) -> bool,
    path: P,
) -> bool {
    exists|k: int|
        0 <= k < files.len() && (#[trigger] files[k]).is_file && wanted(files[k].name@)
            && files[k].path == path
}

proof fn lemma_wanted_paths<P>(files: Seq<FileEntry<P>>, wanted: spec_fn(Seq<char>) -> bool, path: P)
    ensures
        wanted_paths(files, wanted).contains(path) <==> is_wanted_path(files, wanted, path),
    decreases files.len(),
{
    let paths = wanted_paths(files, wanted);
    if files.len() == 0 {
        reveal(Seq::filter);
        assert(paths =~= Seq::empty());
    } else {
        let before = files.drop_last();
        let last = files.last();
        let earlier = wanted_paths(before, wanted);
        lemma_wanted_paths(before, wanted, path);
        lemma_wanted_paths_push(before, last, wanted);
        assert(before.push(last) =~= files);
        if paths.contains(path) {
            let i = choose|i: int| 0 <= i < paths.len() && paths[i] == path;
            if i < earlier.len() {
                assert(earlier[i] == path);
                let k = choose|k: int|
                    0 <= k < before.len() && (#[trigger] before[k]).is_file && wanted(
                        before[k].name@,
                    ) && before[k].path == path;
                assert(files[k] == before[k]);
            } else {
                assert(files[files.len() - 1].is_file);
            }
        }
        if is_wanted_path(files, wanted, path) {
            let k = choose|k: int|
                0 <= k < files.len() && (#[trigger] files[k]).is_file && wanted(files[k].name@)
                    && files[k].path == path;
            if k < before.len() {
                assert(before[k] == files[k]);
                assert(is_wanted_path(before, wanted, path));
                let i = choose|i: int| 0 <= i < earlier.len() && earlier[i] == path;
                assert(paths[i] == path);
            } else {
                assert(paths[paths.len() - 1] == path);
            }
        }
    }
}

/// What is collected of a libFuzzer directory are the files that bear a name under which libFuzzer
/// saves crashes. No hidden file is among them.
pub proof fn law_libfuzzer_crashes_are_the_files_with_such_names<P>(
    files: Seq<FileEntry<P>>,
    path: P,
)
    ensures
        wanted_paths(files, |name: Seq<char>| is_libfuzzer_crash(name)).contains(path)
            <==> is_wanted_path(files, |name: Seq<char>| is_libfuzzer_crash(name), path),
        forall|name: Seq<char>| #[trigger]
            is_libfuzzer_crash(name) && name.len() > 0 ==> name[0] != '.',
{
    lemma_wanted_paths(files, |name: Seq<char>| is_libfuzzer_crash(name), path);
    assert forall|name: Seq<char>| #[trigger]
        is_libfuzzer_crash(name) && name.len() > 0 implies name[0] != '.' by {
        reveal_strlit(".");
        if name[0] == '.' {
            assert("."@ =~= name.subrange(0, 1));
        }
    }
}

/// What is collected of a directory `crashes` of AFL++ are the files whose name begins with `id`.
pub proof fn law_afl_crashes_are_the_files_with_such_names<P>(files: Seq<FileEntry<P>>, path: P)
    ensures
        afl_paths(files).contains(path) <==> is_wanted_path(
            files,
            |name: Seq<char>| is_afl_crash(name),
            path,
        ),
{
    lemma_wanted_paths(files, |name: Seq<char>| is_afl_crash(name), path);
}

proof fn lemma_flatten_contains<P>(parts: Seq<Seq<P>>, path: P)
    ensures
        parts.flatten().contains(path) <==> exists|k: int|
            0 <= k < parts.len() && (#[trigger] parts[k]).contains(path),
    decreases parts.len(),
{
    if parts.len() > 0 {
        let rest = parts.drop_first();
        let whole = parts.flatten();
        lemma_flatten_contains(rest, path);
        assert(whole == parts[0] + rest.flatten());
        if whole.contains(path) {
            let i = choose|i: int| 0 <= i < whole.len() && whole[i] == path;
            if i < parts[0].len() {
                assert(parts[0][i] == path);
                assert(parts[0].contains(path));
            } else {
                assert(rest.flatten()[i - parts[0].len()] == path);
                let k = choose|k: int| 0 <= k < rest.len() && (#[trigger] rest[k]).contains(path);
                assert(parts[k + 1] == rest[k]);
            }
        }
        if exists|k: int| 0 <= k < parts.len() && (#[trigger] parts[k]).contains(path) {
            let k = choose|k: int| 0 <= k < parts.len() && (#[trigger] parts[k]).contains(path);
            if k == 0 {
                let i = choose|i: int| 0 <= i < parts[0].len() && parts[0][i] == path;
                assert(whole[i] == path);
            } else {
                assert(rest[k - 1] == parts[k]);
                let tail = rest.flatten();
                let i = choose|i: int| 0 <= i < tail.len() && tail[i] == path;
                assert(whole[parts[0].len() + i] == path);
            }
        }
    }
}

/// `path` is that of a crash in the node's directory `crashes` or in one of its directories whose
/// name begins so.
pub open spec fn is_node_crash<P>(node: Node<P>, path: P) -> bool {
    let wanted = |name: Seq<char>| is_afl_crash(name);
    &&& node.is_dir
    &&& {
        ||| node.crashes matches Some(files) && is_wanted_path(files@, wanted, path)
        ||| exists|k: int|
            0 <= k < node.entries@.len() && (#[trigger] node.entries@[k]).is_dir
                && has_crashes_name(node.entries@[k].name@) && is_wanted_path(
                node.entries@[k].files@,
                wanted,
                path,
            )
    }
}

proof fn lemma_node_paths<P>(node: Node<P>, path: P)
    ensures
        node_paths(node).contains(path) <==> is_node_crash(node, path),
{
    if node.is_dir {
        let own = crashes_dir_paths(node.crashes);
        let parts = node.entries@.map_values(|entry: NodeEntry<P>| entry_paths(entry));
        let whole = own + parts.flatten();
        lemma_flatten_contains(parts, path);
        if node.crashes is Some {
            law_afl_crashes_are_the_files_with_such_names(node.crashes->Some_0@, path);
        }
        assert forall|k: int| 0 <= k < parts.len() implies ((#[trigger] parts[k]).contains(path)
            <==> node.entries@[k].is_dir && has_crashes_name(node.entries@[k].name@)
            && is_wanted_path(
            node.entries@[k].files@,
            |name: Seq<char>| is_afl_crash(name),
            path,
        )) by {
            law_afl_crashes_are_the_files_with_such_names(node.entries@[k].files@, path);
        }
        if whole.contains(path) {
            let i = choose|i: int| 0 <= i < whole.len() && whole[i] == path;
            if i < own.len() {
                assert(own[i] == path);
            } else {
                assert(parts.flatten()[i - own.len()] == path);
                let k = choose|k: int| 0 <= k < parts.len() && (#[trigger] parts[k]).contains(path);
                assert(node.entries@[k].is_dir);
            }
        }
        if own.contains(path) {
            let i = choose|i: int| 0 <= i < own.len() && own[i] == path;
            assert(whole[i] == path);
        }
        if parts.flatten().contains(path) {
            let tail = parts.flatten();
            let i = choose|i: int| 0 <= i < tail.len() && tail[i] == path;
            assert(whole[own.len() + i] == path);
        }
        if is_node_crash(node, path) && !own.contains(path) {
            let k = choose|k: int|
                0 <= k < node.entries@.len() && (#[trigger] node.entries@[k]).is_dir
                    && has_crashes_name(node.entries@[k].name@) && is_wanted_path(
                    node.entries@[k].files@,
                    |name: Seq<char>| is_afl_crash(name),
                    path,
                );
            assert(parts[k].contains(path));
        }
    }
}

/// Where an AFL++ output directory has no directory `crashes` of its own, what is collected are the
/// crashes of its nodes: none is left out and nothing else comes in.
pub proof fn law_the_crashes_of_all_nodes_are_collected<P>(dir: AflDir<P>, path: P)
    requires
        dir.crashes is None,
    ensures
        afl_crashes(dir).contains(path) <==> exists|k: int|
            0 <= k < dir.nodes@.len() && is_node_crash(#[trigger] dir.nodes@[k], path),
{
    let parts = dir.nodes@.map_values(|node: Node<P>| node_paths(node));
    lemma_flatten_contains(parts, path);
    assert forall|k: int| 0 <= k < parts.len() implies ((#[trigger] parts[k]).contains(path)
        <==> is_node_crash(dir.nodes@[k], path)) by {
        lemma_node_paths(dir.nodes@[k], path);
    }
    if exists|k: int| 0 <= k < parts.len() && (#[trigger] parts[k]).contains(path) {
        let k = choose|k: int| 0 <= k < parts.len() && (#[trigger] parts[k]).contains(path);
        assert(is_node_crash(dir.nodes@[k], path));
    }
    if exists|k: int| 0 <= k < dir.nodes@.len() && is_node_crash(#[trigger] dir.nodes@[k], path) {
        let k = choose|k: int|
            0 <= k < dir.nodes@.len() && is_node_crash(#[trigger] dir.nodes@[k], path);
        assert(parts[k].contains(path));
    }
}

/// A file whose name points to a fuzzer is collected as a crash of that fuzzer.
pub proof fn law_the_names_that_tell_the_fuzzer_are_collected(name: Seq<char>)
    ensures
        named_by(name) == Some(FuzzerType::LibFuzzer) ==> is_libfuzzer_crash(name),
        named_by(name) == Some(FuzzerType::Afl) ==> is_afl_crash(name),
{
    reveal_strlit("crash-");
    reveal_strlit("leak-");
    reveal_strlit("id:");
    reveal_strlit("id-");
    reveal_strlit("id");
    reveal_strlit(".");
    if has_libfuzzer_name(name) {
        let start = if "crash-"@.is_prefix_of(name) {
            "crash-"@
        } else {
            "leak-"@
        };
        assert(name[0] == start[0]);
        assert("."@.is_prefix_of(name) ==> name[0] == "."@[0]);
    } else if named_by(name) is Some {
        let start = if "id:"@.is_prefix_of(name) {
            "id:"@
        } else {
            "id-"@
        };
        assert(name[0] == start[0] && name[1] == start[1]);
        assert("id"@ =~= name.subrange(0, 2));
    }
}

/// A directory in which detection finds nothing of AFL++ has no directory `crashes` in it, nor in
/// one of its directories.
pub proof fn law_a_libfuzzer_directory_has_no_crashes_directories(
    has_crashes: bool,
    entries: Seq<InputEntry>,
)
    requires
        detected(has_crashes, entries) == FuzzerType::LibFuzzer,
    ensures
        !has_crashes,
        forall|i: int| 0 <= i < entries.len() ==> !is_node(#[trigger] entries[i]),
{
}

/// The text starts with the characters of `start`, one by one.
pub open spec fn begins(text: Seq<char>, start: Seq<char>) -> bool {
    text.len() >= start.len() && forall|k: int|
        0 <= k < start.len() ==> #[trigger] text[k] == start[k]
}

proof fn lemma_begins(text: Seq<char>, start: Seq<char>)
    ensures
        begins(text, start) <==> start.is_prefix_of(text),
{
    if begins(text, start) {
        assert(start =~= text.subrange(0, start.len() as int));
    }
    if start.is_prefix_of(text) {
        assert forall|k: int| 0 <= k < start.len() implies #[trigger] text[k] == start[k] by {
            assert(text.subrange(0, start.len() as int)[k] == text[k]);
        }
    }
}

proof fn lemma_no_dot(name: Seq<char>)
    ensures
        text::occurs_in(name, "."@) <==> exists|k: int|
            0 <= k < name.len() && #[trigger] name[k] == '.',
{
    reveal_strlit(".");
    if text::occurs_in(name, "."@) {
        let at = choose|at: int| text::occurs_at(name, "."@, at);
        assert(name.subrange(at, at + 1)[0] == name[at]);
        assert(name[at] == '.');
    }
    if exists|k: int| 0 <= k < name.len() && #[trigger] name[k] == '.' {
        let k = choose|k: int| 0 <= k < name.len() && #[trigger] name[k] == '.';
        assert(name.subrange(k, k + 1) =~= "."@);
        assert(text::occurs_at(name, "."@, k));
    }
}

/// The name of a crash of libFuzzer or LibAFL, by its characters: its first is no dot, and it starts
/// with `crash-`, or with `leak-`, or none of its characters is a dot.
pub proof fn law_libfuzzer_names_by_their_characters(name: Seq<char>)
    ensures
        is_libfuzzer_crash(name) <==> {
            &&& name.len() == 0 || name[0] != '.'
            &&& {
                ||| begins(name, seq!['c', 'r', 'a', 's', 'h', '-'])
                ||| begins(name, seq!['l', 'e', 'a', 'k', '-'])
                ||| forall|k: int| 0 <= k < name.len() ==> #[trigger] name[k] != '.'
            }
        },
{
    reveal_strlit("crash-");
    reveal_strlit("leak-");
    reveal_strlit(".");
    assert("crash-"@ =~= seq!['c', 'r', 'a', 's', 'h', '-']);
    assert("leak-"@ =~= seq!['l', 'e', 'a', 'k', '-']);
    lemma_begins(name, "crash-"@);
    lemma_begins(name, "leak-"@);
    lemma_begins(name, "."@);
    lemma_no_dot(name);
    assert(begins(name, "."@) <==> name.len() > 0 && name[0] == '.');
}

/// Every file whose name holds no dot is collected of a libFuzzer directory, whatever the other
/// characters of its name are, and so is every file whose name starts with `crash-` or `leak-`.
pub proof fn law_every_file_without_a_dot_is_collected<P>(files: Seq<FileEntry<P>>, k: int)
    requires
        0 <= k < files.len(),
        files[k].is_file,
        (forall|c: int| 0 <= c < files[k].name@.len() ==> #[trigger] files[k].name@[c] != '.')
            || begins(files[k].name@, seq!['c', 'r', 'a', 's', 'h', '-']) || begins(
            files[k].name@,
            seq!['l', 'e', 'a', 'k', '-'],
        ),
    ensures
        wanted_paths(files, |name: Seq<char>| is_libfuzzer_crash(name)).contains(files[k].path),
{
    let wanted = |name: Seq<char>| is_libfuzzer_crash(name);
    let name = files[k].name@;
    law_libfuzzer_names_by_their_characters(name);
    if begins(name, seq!['c', 'r', 'a', 's', 'h', '-']) {
        assert(name[0] == 'c');
    }
    if begins(name, seq!['l', 'e', 'a', 'k', '-']) {
        assert(name[0] == 'l');
    }
    lemma_wanted_paths(files, wanted, files[k].path);
    assert(files[k].is_file && wanted(files[k].name@));
    assert(is_wanted_path(files, wanted, files[k].path));
}

/// `paths` are those of the entries at the indices `at`, which are in order, and these entries are
/// all that are files and whose name starts with `i` and `d`.
pub open spec fn are_id_files<P>(files: Seq<FileEntry<P>>, paths: Seq<P>, at: Seq<int>) -> bool {
    &&& at.len() == paths.len()
    &&& forall|i: int, j: int| 0 <= i < j < at.len() ==> #[trigger] at[i] < #[trigger] at[j]
    &&& forall|i: int|
        0 <= i < at.len() ==> 0 <= #[trigger] at[i] < files.len() && paths[i] == files[at[i]].path
    &&& forall|k: int|
        0 <= k < files.len() ==> (at.contains(k) <==> (#[trigger] files[k]).is_file
            && files[k].name@.len() >= 2 && files[k].name@[0] == 'i' && files[k].name@[1] == 'd')
}

/// What is collected of a directory of AFL++ are the files whose name starts with `i` and `d`, all
/// of them, each once and in the order in which they are listed.
pub proof fn law_afl_crashes_by_their_characters<P>(files: Seq<FileEntry<P>>)
    ensures
        exists|at: Seq<int>| are_id_files(files, afl_paths(files), at),
{
    let wanted = |name: Seq<char>| is_afl_crash(name);
    let at = lemma_wanted_in_order(files, wanted);
    assert forall|k: int| 0 <= k < files.len() implies (at.contains(k) <==> (
    #[trigger] files[k]).is_file && files[k].name@.len() >= 2 && files[k].name@[0] == 'i'
        && files[k].name@[1] == 'd') by {
        reveal_strlit("id");
        lemma_begins(files[k].name@, "id"@);
        let name = files[k].name@;
        assert(begins(name, "id"@) <==> name.len() >= 2 && name[0] == 'i' && name[1] == 'd') by {
            if name.len() >= 2 && name[0] == 'i' && name[1] == 'd' {
                assert forall|c: int| 0 <= c < "id"@.len() implies #[trigger] name[c] == "id"@[c] by {}
            }
        }
    }
    assert(are_id_files(files, afl_paths(files), at));
}

/// What is collected of a libFuzzer directory comes once for each file and in the order in which the
/// files are listed.
pub proof fn law_libfuzzer_crashes_are_in_order<P>(files: Seq<FileEntry<P>>)
    ensures
        exists|at: Seq<int>|
            {
                &&& #[trigger] at.len() == wanted_paths(
                    files,
                    |name: Seq<char>| is_libfuzzer_crash(name),
                ).len()
                &&& forall|i: int, j: int| 0 <= i < j < at.len() ==> #[trigger] at[i] < #[trigger] at[j]
                &&& forall|i: int|
                    0 <= i < at.len() ==> 0 <= #[trigger] at[i] < files.len()
                        && files[at[i]].is_file && wanted_paths(
                        files,
                        |name: Seq<char>| is_libfuzzer_crash(name),
                    )[i] == files[at[i]].path
            },
{
    let wanted = |name: Seq<char>| is_libfuzzer_crash(name);
    let at = lemma_wanted_in_order(files, wanted);
    assert(at.len() == wanted_paths(files, wanted).len());
    assert forall|i: int| 0 <= i < at.len() implies 0 <= #[trigger] at[i] < files.len()
        && files[at[i]].is_file && wanted_paths(files, wanted)[i] == files[at[i]].path by {
        assert(at.contains(at[i]));
    }
}

proof fn lemma_wanted_in_order<P>(
    files: Seq<FileEntry<P>>,
    wanted: spec_fn(Seq<char>) -> bool,
) -> (at: Seq<int>)
    ensures
        at.len() == wanted_paths(files, wanted).len(),
        forall|i: int, j: int| 0 <= i < j < at.len() ==> #[trigger] at[i] < #[trigger] at[j],
        forall|i: int|
            0 <= i < at.len() ==> 0 <= #[trigger] at[i] < files.len() && wanted_paths(
                files,
                wanted,
            )[i] == files[at[i]].path,
        forall|k: int|
            0 <= k < files.len() ==> (at.contains(k) <==> (#[trigger] files[k]).is_file && wanted(
                files[k].name@,
            )),
    decreases files.len(),
{
    if files.len() == 0 {
        reveal(Seq::filter);
        assert(wanted_paths(files, wanted) =~= Seq::empty());
        Seq::empty()
    } else {
        let rest = files.drop_last();
        let last = files.last();
        let n = files.len() - 1;
        let before = lemma_wanted_in_order(rest, wanted);
        lemma_wanted_paths_push(rest, last, wanted);
        assert(rest.push(last) =~= files);
        let keep = last.is_file && wanted(last.name@);
        let at = if keep {
            before.push(n)
        } else {
            before
        };
        let paths = wanted_paths(files, wanted);
        assert forall|i: int| 0 <= i < at.len() implies 0 <= #[trigger] at[i] < files.len()
            && paths[i] == files[at[i]].path by {
            if i < before.len() {
                assert(at[i] == before[i]);
                assert(rest[before[i]] == files[before[i]]);
            }
        }
        assert forall|k: int| 0 <= k < files.len() implies (at.contains(k) <==> (
        #[trigger] files[k]).is_file && wanted(files[k].name@)) by {
            if k < n {
                assert(rest[k] == files[k]);
                if before.contains(k) {
                    let i = choose|i: int| 0 <= i < before.len() && before[i] == k;
                    assert(at[i] == k);
                }
                if at.contains(k) {
                    let i = choose|i: int| 0 <= i < at.len() && at[i] == k;
                    assert(before[i] == k);
                }
            } else {
                if keep {
                    assert(at[before.len() as int] == n);
                }
                if at.contains(k) && !keep {
                    let i = choose|i: int| 0 <= i < at.len() && at[i] == k;
                    assert(before[i] < rest.len());
                }
            }
        }
        at
    }
}

/// Where an AFL++ output directory has a directory `crashes` of its own, its crashes are those of
/// that directory alone.
pub proof fn law_an_own_crashes_directory_comes_alone<P>(dir: AflDir<P>)
    requires
        dir.crashes is Some,
    ensures
        exists|at: Seq<int>| are_id_files(dir.crashes->0@, afl_crashes(dir), at),
{
    let files = dir.crashes->0@;
    law_afl_crashes_by_their_characters(files);
    let at = choose|at: Seq<int>| are_id_files(files, afl_paths(files), at);
    assert(are_id_files(files, afl_crashes(dir), at));
}

/// Of a node's directory the files are collected that stand in its directory `crashes`, and then, in
/// the order in which they are listed, those of every directory in it whose name starts with the
/// characters of `crashes`. What is no directory gives none.
pub proof fn law_a_node_gives_the_files_of_its_crashes_directories<P>(node: Node<P>)
    ensures
        !node.is_dir ==> node_paths(node) == Seq::<P>::empty(),
        node.is_dir ==> node_paths(node) == (match node.crashes {
            Some(files) => afl_paths(files@),
            None => Seq::empty(),
        }) + Seq::new(
            node.entries@.len(),
            |k: int|
                if node.entries@[k].is_dir && begins(
                    node.entries@[k].name@,
                    seq!['c', 'r', 'a', 's', 'h', 'e', 's'],
                ) {
                    afl_paths(node.entries@[k].files@)
                } else {
                    Seq::empty()
                },
        ).flatten(),
{
    reveal_strlit("crashes");
    assert("crashes"@ =~= seq!['c', 'r', 'a', 's', 'h', 'e', 's']);
    let parts = node.entries@.map_values(|entry: NodeEntry<P>| entry_paths(entry));
    let plain = Seq::new(
        node.entries@.len(),
        |k: int|
            if node.entries@[k].is_dir && begins(
                node.entries@[k].name@,
                seq!['c', 'r', 'a', 's', 'h', 'e', 's'],
            ) {
                afl_paths(node.entries@[k].files@)
            } else {
                Seq::empty()
            },
    );
    assert forall|k: int| 0 <= k < parts.len() implies parts[k] == plain[k] by {
        lemma_begins(node.entries@[k].name@, "crashes"@);
    }
    assert(parts =~= plain);
}

/// Without a directory `crashes` of its own the crashes of an AFL++ output directory are those of
/// its nodes, one node after the other.
pub proof fn law_the_crashes_of_the_nodes_come_in_order<P>(dir: AflDir<P>)
    requires
        dir.crashes is None,
    ensures
        afl_crashes(dir) == Seq::new(
            dir.nodes@.len(),
            |k: int| node_paths(dir.nodes@[k]),
        ).flatten(),
{
    assert(dir.nodes@.map_values(|node: Node<P>| node_paths(node)) =~= Seq::new(
        dir.nodes@.len(),
        |k: int| node_paths(dir.nodes@[k]),
    ));
}

/// The name begins as libFuzzer's do, by its characters.
pub open spec fn tells_libfuzzer(name: Seq<char>) -> bool {
    begins(name, seq!['c', 'r', 'a', 's', 'h', '-']) || begins(name, seq!['l', 'e', 'a', 'k', '-'])
}

/// The name begins as those of AFL++ do, by its characters.
pub open spec fn tells_afl(name: Seq<char>) -> bool {
    begins(name, seq!['i', 'd', ':']) || begins(name, seq!['i', 'd', '-'])
}

/// An input directory is one of AFL++ if and only if it holds a directory `crashes`, or one of its
/// directories does, or the first of its names that begins with `crash-`, `leak-`, `id:` or `id-`
/// begins with one of the latter two.
pub proof fn law_the_fuzzer_is_told_by_directories_and_then_names(
    has_crashes: bool,
    entries: Seq<InputEntry>,
)
    ensures
        detected(has_crashes, entries) == FuzzerType::Afl <==> {
            ||| has_crashes
            ||| exists|i: int|
                0 <= i < entries.len() && (#[trigger] entries[i]).is_dir && entries[i].has_crashes
            ||| exists|i: int|
                0 <= i < entries.len() && tells_afl((#[trigger] entries[i]).name@) && forall|j: int|
                    0 <= j < i ==> !tells_libfuzzer((#[trigger] entries[j]).name@) && !tells_afl(
                        entries[j].name@,
                    )
        },
{
    lemma_first_named(entries);
    if exists|i: int| 0 <= i < entries.len() && is_node(#[trigger] entries[i]) {
        let i = choose|i: int| 0 <= i < entries.len() && is_node(#[trigger] entries[i]);
        assert(entries[i].is_dir && entries[i].has_crashes);
    }
    if exists|i: int|
        0 <= i < entries.len() && (#[trigger] entries[i]).is_dir && entries[i].has_crashes {
        let i = choose|i: int|
            0 <= i < entries.len() && (#[trigger] entries[i]).is_dir && entries[i].has_crashes;
        assert(is_node(entries[i]));
    }
}

proof fn lemma_named_by(name: Seq<char>)
    ensures
        named_by(name) == Some(FuzzerType::LibFuzzer) <==> tells_libfuzzer(name),
        named_by(name) == Some(FuzzerType::Afl) <==> tells_afl(name),
{
    reveal_strlit("crash-");
    reveal_strlit("leak-");
    reveal_strlit("id:");
    reveal_strlit("id-");
    assert("crash-"@ =~= seq!['c', 'r', 'a', 's', 'h', '-']);
    assert("leak-"@ =~= seq!['l', 'e', 'a', 'k', '-']);
    assert("id:"@ =~= seq!['i', 'd', ':']);
    assert("id-"@ =~= seq!['i', 'd', '-']);
    lemma_begins(name, "crash-"@);
    lemma_begins(name, "leak-"@);
    lemma_begins(name, "id:"@);
    lemma_begins(name, "id-"@);
    if tells_libfuzzer(name) && tells_afl(name) {
        assert(name[0] == 'c' || name[0] == 'l');
        assert(name[0] == 'i');
    }
}

proof fn lemma_first_named(entries: Seq<InputEntry>)
    ensures
        first_named(entries) == Some(FuzzerType::Afl) <==> exists|i: int|
            0 <= i < entries.len() && tells_afl((#[trigger] entries[i]).name@) && forall|j: int|
                0 <= j < i ==> !tells_libfuzzer((#[trigger] entries[j]).name@) && !tells_afl(
                    entries[j].name@,
                ),
    decreases entries.len(),
{
    if entries.len() > 0 {
        let rest = entries.skip(1);
        lemma_named_by(entries[0].name@);
        lemma_first_named(rest);
        if first_named(rest) == Some(FuzzerType::Afl) && named_by(entries[0].name@) is None {
            let i = choose|i: int|
                0 <= i < rest.len() && tells_afl((#[trigger] rest[i]).name@) && forall|j: int|
                    0 <= j < i ==> !tells_libfuzzer((#[trigger] rest[j]).name@) && !tells_afl(
                        rest[j].name@,
                    );
            assert(entries[i + 1] == rest[i]);
            assert forall|j: int| 0 <= j < i + 1 implies !tells_libfuzzer(
                (#[trigger] entries[j]).name@,
            ) && !tells_afl(entries[j].name@) by {
                if j > 0 {
                    assert(entries[j] == rest[j - 1]);
                }
            }
        }
        if exists|i: int|
            0 <= i < entries.len() && tells_afl((#[trigger] entries[i]).name@) && forall|j: int|
                0 <= j < i ==> !tells_libfuzzer((#[trigger] entries[j]).name@) && !tells_afl(
                    entries[j].name@,
                ) {
            let i = choose|i: int|
                0 <= i < entries.len() && tells_afl((#[trigger] entries[i]).name@) && forall|
                    j: int,
                |
                    0 <= j < i ==> !tells_libfuzzer((#[trigger] entries[j]).name@) && !tells_afl(
                        entries[j].name@,
                    );
            if i > 0 {
                assert(!tells_libfuzzer(entries[0].name@) && !tells_afl(entries[0].name@));
                assert(rest[i - 1] == entries[i]);
                assert forall|j: int| 0 <= j < i - 1 implies !tells_libfuzzer(
                    (#[trigger] rest[j]).name@,
                ) && !tells_afl(rest[j].name@) by {
                    assert(rest[j] == entries[j + 1]);
                }
            }
        }
    }
}

/// The command line of the target is that of the directory's own file where that holds a word, else
/// that of the first directory in it whose file does. There is none if and only if none does.
pub proof fn law_the_first_command_line_counts(own: Option<String>, nodes: Seq<CmdlineEntry>)
    ensures
        own is Some && text::words(own->0@).len() > 0 ==> afl_command_line(own, nodes) == Some(
            text::words(own->0@),
        ),
        forall|i: int|
            !(own is Some && text::words(own->0@).len() > 0) && 0 <= i < nodes.len()
                && has_command_line(#[trigger] nodes[i]) && (forall|j: int|
                0 <= j < i ==> !has_command_line(#[trigger] nodes[j])) ==> afl_command_line(
                own,
                nodes,
            ) == Some(text::words(nodes[i].cmdline->0@)),
        afl_command_line(own, nodes) is None <==> !(own is Some && text::words(own->0@).len() > 0)
            && forall|j: int| 0 <= j < nodes.len() ==> !has_command_line(#[trigger] nodes[j]),
{
    lemma_first_command_line(nodes);
}

/// The entry is a directory whose file `cmdline` holds a word.
pub open spec fn has_command_line(node: CmdlineEntry) -> bool {
    node.is_dir && node.cmdline is Some && text::words(node.cmdline->0@).len() > 0
}

proof fn lemma_first_command_line(nodes: Seq<CmdlineEntry>)
    ensures
        forall|i: int|
            0 <= i < nodes.len() && has_command_line(#[trigger] nodes[i]) && (forall|j: int|
                0 <= j < i ==> !has_command_line(#[trigger] nodes[j])) ==> first_command_line(nodes)
                == Some(text::words(nodes[i].cmdline->0@)),
        first_command_line(nodes) is None <==> forall|j: int|
            0 <= j < nodes.len() ==> !has_command_line(#[trigger] nodes[j]),
    decreases nodes.len(),
{
    if nodes.len() > 0 {
        let rest = nodes.skip(1);
        lemma_first_command_line(rest);
        assert forall|i: int|
            0 <= i < nodes.len() && has_command_line(#[trigger] nodes[i]) && (forall|j: int|
                0 <= j < i ==> !has_command_line(
                    #[trigger] nodes[j],
                )) implies first_command_line(nodes) == Some(
            text::words(nodes[i].cmdline->0@),
        ) by {
            if i > 0 {
                assert(!has_command_line(nodes[0]));
                assert(rest[i - 1] == nodes[i]);
                assert forall|j: int| 0 <= j < i - 1 implies !has_command_line(
                    #[trigger] rest[j],
                ) by {
                    assert(rest[j] == nodes[j + 1]);
                }
            }
        }
        if first_command_line(nodes) is None {
            assert forall|j: int| 0 <= j < nodes.len() implies !has_command_line(
                #[trigger] nodes[j],
            ) by {
                if j > 0 {
                    assert(rest[j - 1] == nodes[j]);
                }
            }
        }
        if forall|j: int| 0 <= j < nodes.len() ==> !has_command_line(#[trigger] nodes[j]) {
            assert(!has_command_line(nodes[0]));
            assert forall|j: int| 0 <= j < rest.len() implies !has_command_line(
                #[trigger] rest[j],
            ) by {
                assert(rest[j] == nodes[j + 1]);
            }
        }
    }
}

/// Two options name a fuzzer, letter by letter, and with any other it is to be detected.
pub proof fn law_two_options_name_a_fuzzer(option: Seq<char>)
    ensures
        chosen(option) == Some(FuzzerType::LibFuzzer) <==> option =~= seq![
            'l',
            'i',
            'b',
            'f',
            'u',
            'z',
            'z',
            'e',
            'r',
        ],
        chosen(option) == Some(FuzzerType::Afl) <==> option =~= seq!['a', 'f', 'l'],
{
    reveal_strlit("libfuzzer");
    reveal_strlit("afl");
    assert("libfuzzer"@ =~= seq!['l', 'i', 'b', 'f', 'u', 'z', 'z', 'e', 'r']);
    assert("afl"@ =~= seq!['a', 'f', 'l']);
    assert("libfuzzer"@.len() == 9 && "afl"@.len() == 3);
}

} // verus!
