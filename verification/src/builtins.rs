//! Built-in GNU Make functions, variables, and targets.
//!
//! Single authoritative source for all built-in knowledge used across
//! diagnostics, completions, hover, and signature help.

use vstd::prelude::*;

use crate::strs::str_eq;

verus! {

/// A built-in GNU Make function.
pub struct BuiltinFunction {
    /// Function name (e.g. "subst").
    pub name: &'static str,
    /// Short description.
    pub doc: &'static str,
    /// Parameter labels for signature help.
    pub params: Vec<&'static str>,
}

/// The abstract content of a [`BuiltinFunction`].
pub struct BuiltinFunctionSpec {
    pub name: Seq<char>,
    pub doc: Seq<char>,
    pub params: Seq<Seq<char>>,
}

/// The views of a sequence of string slices.
pub open spec fn strs_view(v: Seq<&str>) -> Seq<Seq<char>> {
    v.map_values(|s: &str| s@)
}

/// The views of a sequence of pairs of string slices.
pub open spec fn pairs_view(v: Seq<(&str, &str)>) -> Seq<(Seq<char>, Seq<char>)> {
    v.map_values(|p: (&str, &str)| (p.0@, p.1@))
}

impl View for BuiltinFunction {
    type V = BuiltinFunctionSpec;

    open spec fn view(&self) -> BuiltinFunctionSpec {
        BuiltinFunctionSpec { name: self.name@, doc: self.doc@, params: strs_view(self.params@) }
    }
}

/// All built-in GNU Make functions.
pub open spec fn spec_builtin_functions() -> Seq<BuiltinFunctionSpec> {
    seq![
        BuiltinFunctionSpec { name: "subst"@, doc: "Replace occurrences of *from* with *to* in *text*."@, params: seq!["from"@, "to"@, "text"@] },
        BuiltinFunctionSpec { name: "patsubst"@, doc: "Pattern substitution: replace *pattern* with *replacement* in *text*."@, params: seq!["pattern"@, "replacement"@, "text"@] },
        BuiltinFunctionSpec { name: "strip"@, doc: "Remove leading and trailing whitespace."@, params: seq!["string"@] },
        BuiltinFunctionSpec { name: "findstring"@, doc: "Search for *find* in *in*. Returns *find* if found, empty otherwise."@, params: seq!["find"@, "in"@] },
        BuiltinFunctionSpec { name: "filter"@, doc: "Keep only words in *text* matching any *pattern*."@, params: seq!["pattern…"@, "text"@] },
        BuiltinFunctionSpec { name: "filter-out"@, doc: "Remove words in *text* matching any *pattern*."@, params: seq!["pattern…"@, "text"@] },
        BuiltinFunctionSpec { name: "sort"@, doc: "Sort words and remove duplicates."@, params: seq!["list"@] },
        BuiltinFunctionSpec { name: "word"@, doc: "Extract the *n*th word (1-based) from *text*."@, params: seq!["n"@, "text"@] },
        BuiltinFunctionSpec { name: "wordlist"@, doc: "Extract words *s* through *e* (1-based) from *text*."@, params: seq!["s"@, "e"@, "text"@] },
        BuiltinFunctionSpec { name: "words"@, doc: "Count the number of words."@, params: seq!["text"@] },
        BuiltinFunctionSpec { name: "firstword"@, doc: "Return the first word."@, params: seq!["names…"@] },
        BuiltinFunctionSpec { name: "lastword"@, doc: "Return the last word."@, params: seq!["names…"@] },
        BuiltinFunctionSpec { name: "dir"@, doc: "Extract the directory part of file names."@, params: seq!["names…"@] },
        BuiltinFunctionSpec { name: "notdir"@, doc: "Extract the non-directory part of file names."@, params: seq!["names…"@] },
        BuiltinFunctionSpec { name: "suffix"@, doc: "Extract the suffix of file names."@, params: seq!["names…"@] },
        BuiltinFunctionSpec { name: "basename"@, doc: "Extract the basename of file names."@, params: seq!["names…"@] },
        BuiltinFunctionSpec { name: "addsuffix"@, doc: "Append *suffix* to each word in *names*."@, params: seq!["suffix"@, "names…"@] },
        BuiltinFunctionSpec { name: "addprefix"@, doc: "Prepend *prefix* to each word in *names*."@, params: seq!["prefix"@, "names…"@] },
        BuiltinFunctionSpec { name: "join"@, doc: "Join two lists pairwise."@, params: seq!["list1"@, "list2"@] },
        BuiltinFunctionSpec { name: "wildcard"@, doc: "Expand file name wildcards."@, params: seq!["pattern"@] },
        BuiltinFunctionSpec { name: "realpath"@, doc: "Canonical absolute path names."@, params: seq!["names…"@] },
        BuiltinFunctionSpec { name: "abspath"@, doc: "Absolute path names."@, params: seq!["names…"@] },
        BuiltinFunctionSpec { name: "if"@, doc: "If *condition* is non-empty, expand *then-part*, otherwise *else-part*."@, params: seq!["condition"@, "then-part"@, "else-part"@] },
        BuiltinFunctionSpec { name: "or"@, doc: "Short-circuiting OR: return the first non-empty argument."@, params: seq!["cond1"@, "cond2…"@] },
        BuiltinFunctionSpec { name: "and"@, doc: "Short-circuiting AND: return the last argument if all are non-empty."@, params: seq!["cond1"@, "cond2…"@] },
        BuiltinFunctionSpec { name: "foreach"@, doc: "Iterate: for each word in *list*, expand *text* with *var* set to the word."@, params: seq!["var"@, "list"@, "text"@] },
        BuiltinFunctionSpec { name: "call"@, doc: "Call a user-defined function stored in *variable* with the given parameters."@, params: seq!["variable"@, "param…"@] },
        BuiltinFunctionSpec { name: "eval"@, doc: "Evaluate *text* as makefile syntax."@, params: seq!["text"@] },
        BuiltinFunctionSpec { name: "origin"@, doc: "Return how *variable* was defined (undefined, default, environment, file, etc.)."@, params: seq!["variable"@] },
        BuiltinFunctionSpec { name: "flavor"@, doc: "Return the flavor of *variable* (undefined, recursive, or simple)."@, params: seq!["variable"@] },
        BuiltinFunctionSpec { name: "value"@, doc: "Return the unexpanded value of *variable*."@, params: seq!["variable"@] },
        BuiltinFunctionSpec { name: "error"@, doc: "Generate a fatal error with *text*."@, params: seq!["text…"@] },
        BuiltinFunctionSpec { name: "warning"@, doc: "Print a warning message."@, params: seq!["text…"@] },
        BuiltinFunctionSpec { name: "info"@, doc: "Print an informational message."@, params: seq!["text…"@] },
        BuiltinFunctionSpec { name: "shell"@, doc: "Execute *command* in a shell and return its stdout."@, params: seq!["command"@] },
        BuiltinFunctionSpec { name: "file"@, doc: "Read from or write to a file."@, params: seq!["op filename"@, "text"@] },
        BuiltinFunctionSpec { name: "guile"@, doc: "Evaluate GNU Guile code (if compiled with Guile support)."@, params: seq!["code"@] },
        BuiltinFunctionSpec { name: "let"@, doc: "Bind words from *list* to *var…* and expand *text*."@, params: seq!["var…"@, "list"@, "text"@] },
    ]
}

fn builtin_function_0() -> (f: BuiltinFunction)
    ensures
        f@ == spec_builtin_functions()[0],
{
    let f = BuiltinFunction { name: "subst", doc: "Replace occurrences of *from* with *to* in *text*.", params: vec!["from", "to", "text"] };
    assert(f@.params =~= spec_builtin_functions()[0].params);
    f
}

fn builtin_function_1() -> (f: BuiltinFunction)
    ensures
        f@ == spec_builtin_functions()[1],
{
    let f = BuiltinFunction { name: "patsubst", doc: "Pattern substitution: replace *pattern* with *replacement* in *text*.", params: vec!["pattern", "replacement", "text"] };
    assert(f@.params =~= spec_builtin_functions()[1].params);
    f
}

fn builtin_function_2() -> (f: BuiltinFunction)
    ensures
        f@ == spec_builtin_functions()[2],
{
    let f = BuiltinFunction { name: "strip", doc: "Remove leading and trailing whitespace.", params: vec!["string"] };
    assert(f@.params =~= spec_builtin_functions()[2].params);
    f
}

fn builtin_function_3() -> (f: BuiltinFunction)
    ensures
        f@ == spec_builtin_functions()[3],
{
    let f = BuiltinFunction { name: "findstring", doc: "Search for *find* in *in*. Returns *find* if found, empty otherwise.", params: vec!["find", "in"] };
    assert(f@.params =~= spec_builtin_functions()[3].params);
    f
}

fn builtin_function_4() -> (f: BuiltinFunction)
    ensures
        f@ == spec_builtin_functions()[4],
{
    let f = BuiltinFunction { name: "filter", doc: "Keep only words in *text* matching any *pattern*.", params: vec!["pattern…", "text"] };
    assert(f@.params =~= spec_builtin_functions()[4].params);
    f
}

fn builtin_function_5() -> (f: BuiltinFunction)
    ensures
        f@ == spec_builtin_functions()[5],
{
    let f = BuiltinFunction { name: "filter-out", doc: "Remove words in *text* matching any *pattern*.", params: vec!["pattern…", "text"] };
    assert(f@.params =~= spec_builtin_functions()[5].params);
    f
}

fn builtin_function_6() -> (f: BuiltinFunction)
    ensures
        f@ == spec_builtin_functions()[6],
{
    let f = BuiltinFunction { name: "sort", doc: "Sort words and remove duplicates.", params: vec!["list"] };
    assert(f@.params =~= spec_builtin_functions()[6].params);
    f
}

fn builtin_function_7() -> (f: BuiltinFunction)
    ensures
        f@ == spec_builtin_functions()[7],
{
    let f = BuiltinFunction { name: "word", doc: "Extract the *n*th word (1-based) from *text*.", params: vec!["n", "text"] };
    assert(f@.params =~= spec_builtin_functions()[7].params);
    f
}

fn builtin_function_8() -> (f: BuiltinFunction)
    ensures
        f@ == spec_builtin_functions()[8],
{
    let f = BuiltinFunction { name: "wordlist", doc: "Extract words *s* through *e* (1-based) from *text*.", params: vec!["s", "e", "text"] };
    assert(f@.params =~= spec_builtin_functions()[8].params);
    f
}

fn builtin_function_9() -> (f: BuiltinFunction)
    ensures
        f@ == spec_builtin_functions()[9],
{
    let f = BuiltinFunction { name: "words", doc: "Count the number of words.", params: vec!["text"] };
    assert(f@.params =~= spec_builtin_functions()[9].params);
    f
}

fn builtin_function_10() -> (f: BuiltinFunction)
    ensures
        f@ == spec_builtin_functions()[10],
{
    let f = BuiltinFunction { name: "firstword", doc: "Return the first word.", params: vec!["names…"] };
    assert(f@.params =~= spec_builtin_functions()[10].params);
    f
}

fn builtin_function_11() -> (f: BuiltinFunction)
    ensures
        f@ == spec_builtin_functions()[11],
{
    let f = BuiltinFunction { name: "lastword", doc: "Return the last word.", params: vec!["names…"] };
    assert(f@.params =~= spec_builtin_functions()[11].params);
    f
}

fn builtin_function_12() -> (f: BuiltinFunction)
    ensures
        f@ == spec_builtin_functions()[12],
{
    let f = BuiltinFunction { name: "dir", doc: "Extract the directory part of file names.", params: vec!["names…"] };
    assert(f@.params =~= spec_builtin_functions()[12].params);
    f
}

fn builtin_function_13() -> (f: BuiltinFunction)
    ensures
        f@ == spec_builtin_functions()[13],
{
    let f = BuiltinFunction { name: "notdir", doc: "Extract the non-directory part of file names.", params: vec!["names…"] };
    assert(f@.params =~= spec_builtin_functions()[13].params);
    f
}

fn builtin_function_14() -> (f: BuiltinFunction)
    ensures
        f@ == spec_builtin_functions()[14],
{
    let f = BuiltinFunction { name: "suffix", doc: "Extract the suffix of file names.", params: vec!["names…"] };
    assert(f@.params =~= spec_builtin_functions()[14].params);
    f
}

fn builtin_function_15() -> (f: BuiltinFunction)
    ensures
        f@ == spec_builtin_functions()[15],
{
    let f = BuiltinFunction { name: "basename", doc: "Extract the basename of file names.", params: vec!["names…"] };
    assert(f@.params =~= spec_builtin_functions()[15].params);
    f
}

fn builtin_function_16() -> (f: BuiltinFunction)
    ensures
        f@ == spec_builtin_functions()[16],
{
    let f = BuiltinFunction { name: "addsuffix", doc: "Append *suffix* to each word in *names*.", params: vec!["suffix", "names…"] };
    assert(f@.params =~= spec_builtin_functions()[16].params);
    f
}

fn builtin_function_17() -> (f: BuiltinFunction)
    ensures
        f@ == spec_builtin_functions()[17],
{
    let f = BuiltinFunction { name: "addprefix", doc: "Prepend *prefix* to each word in *names*.", params: vec!["prefix", "names…"] };
    assert(f@.params =~= spec_builtin_functions()[17].params);
    f
}

fn builtin_function_18() -> (f: BuiltinFunction)
    ensures
        f@ == spec_builtin_functions()[18],
{
    let f = BuiltinFunction { name: "join", doc: "Join two lists pairwise.", params: vec!["list1", "list2"] };
    assert(f@.params =~= spec_builtin_functions()[18].params);
    f
}

fn builtin_function_19() -> (f: BuiltinFunction)
    ensures
        f@ == spec_builtin_functions()[19],
{
    let f = BuiltinFunction { name: "wildcard", doc: "Expand file name wildcards.", params: vec!["pattern"] };
    assert(f@.params =~= spec_builtin_functions()[19].params);
    f
}

fn builtin_function_20() -> (f: BuiltinFunction)
    ensures
        f@ == spec_builtin_functions()[20],
{
    let f = BuiltinFunction { name: "realpath", doc: "Canonical absolute path names.", params: vec!["names…"] };
    assert(f@.params =~= spec_builtin_functions()[20].params);
    f
}

fn builtin_function_21() -> (f: BuiltinFunction)
    ensures
        f@ == spec_builtin_functions()[21],
{
    let f = BuiltinFunction { name: "abspath", doc: "Absolute path names.", params: vec!["names…"] };
    assert(f@.params =~= spec_builtin_functions()[21].params);
    f
}

fn builtin_function_22() -> (f: BuiltinFunction)
    ensures
        f@ == spec_builtin_functions()[22],
{
    let f = BuiltinFunction { name: "if", doc: "If *condition* is non-empty, expand *then-part*, otherwise *else-part*.", params: vec!["condition", "then-part", "else-part"] };
    assert(f@.params =~= spec_builtin_functions()[22].params);
    f
}

fn builtin_function_23() -> (f: BuiltinFunction)
    ensures
        f@ == spec_builtin_functions()[23],
{
    let f = BuiltinFunction { name: "or", doc: "Short-circuiting OR: return the first non-empty argument.", params: vec!["cond1", "cond2…"] };
    assert(f@.params =~= spec_builtin_functions()[23].params);
    f
}

fn builtin_function_24() -> (f: BuiltinFunction)
    ensures
        f@ == spec_builtin_functions()[24],
{
    let f = BuiltinFunction { name: "and", doc: "Short-circuiting AND: return the last argument if all are non-empty.", params: vec!["cond1", "cond2…"] };
    assert(f@.params =~= spec_builtin_functions()[24].params);
    f
}

fn builtin_function_25() -> (f: BuiltinFunction)
    ensures
        f@ == spec_builtin_functions()[25],
{
    let f = BuiltinFunction { name: "foreach", doc: "Iterate: for each word in *list*, expand *text* with *var* set to the word.", params: vec!["var", "list", "text"] };
    assert(f@.params =~= spec_builtin_functions()[25].params);
    f
}

fn builtin_function_26() -> (f: BuiltinFunction)
    ensures
        f@ == spec_builtin_functions()[26],
{
    let f = BuiltinFunction { name: "call", doc: "Call a user-defined function stored in *variable* with the given parameters.", params: vec!["variable", "param…"] };
    assert(f@.params =~= spec_builtin_functions()[26].params);
    f
}

fn builtin_function_27() -> (f: BuiltinFunction)
    ensures
        f@ == spec_builtin_functions()[27],
{
    let f = BuiltinFunction { name: "eval", doc: "Evaluate *text* as makefile syntax.", params: vec!["text"] };
    assert(f@.params =~= spec_builtin_functions()[27].params);
    f
}

fn builtin_function_28() -> (f: BuiltinFunction)
    ensures
        f@ == spec_builtin_functions()[28],
{
    let f = BuiltinFunction { name: "origin", doc: "Return how *variable* was defined (undefined, default, environment, file, etc.).", params: vec!["variable"] };
    assert(f@.params =~= spec_builtin_functions()[28].params);
    f
}

fn builtin_function_29() -> (f: BuiltinFunction)
    ensures
        f@ == spec_builtin_functions()[29],
{
    let f = BuiltinFunction { name: "flavor", doc: "Return the flavor of *variable* (undefined, recursive, or simple).", params: vec!["variable"] };
    assert(f@.params =~= spec_builtin_functions()[29].params);
    f
}

fn builtin_function_30() -> (f: BuiltinFunction)
    ensures
        f@ == spec_builtin_functions()[30],
{
    let f = BuiltinFunction { name: "value", doc: "Return the unexpanded value of *variable*.", params: vec!["variable"] };
    assert(f@.params =~= spec_builtin_functions()[30].params);
    f
}

fn builtin_function_31() -> (f: BuiltinFunction)
    ensures
        f@ == spec_builtin_functions()[31],
{
    let f = BuiltinFunction { name: "error", doc: "Generate a fatal error with *text*.", params: vec!["text…"] };
    assert(f@.params =~= spec_builtin_functions()[31].params);
    f
}

fn builtin_function_32() -> (f: BuiltinFunction)
    ensures
        f@ == spec_builtin_functions()[32],
{
    let f = BuiltinFunction { name: "warning", doc: "Print a warning message.", params: vec!["text…"] };
    assert(f@.params =~= spec_builtin_functions()[32].params);
    f
}

fn builtin_function_33() -> (f: BuiltinFunction)
    ensures
        f@ == spec_builtin_functions()[33],
{
    let f = BuiltinFunction { name: "info", doc: "Print an informational message.", params: vec!["text…"] };
    assert(f@.params =~= spec_builtin_functions()[33].params);
    f
}

fn builtin_function_34() -> (f: BuiltinFunction)
    ensures
        f@ == spec_builtin_functions()[34],
{
    let f = BuiltinFunction { name: "shell", doc: "Execute *command* in a shell and return its stdout.", params: vec!["command"] };
    assert(f@.params =~= spec_builtin_functions()[34].params);
    f
}

fn builtin_function_35() -> (f: BuiltinFunction)
    ensures
        f@ == spec_builtin_functions()[35],
{
    let f = BuiltinFunction { name: "file", doc: "Read from or write to a file.", params: vec!["op filename", "text"] };
    assert(f@.params =~= spec_builtin_functions()[35].params);
    f
}

fn builtin_function_36() -> (f: BuiltinFunction)
    ensures
        f@ == spec_builtin_functions()[36],
{
    let f = BuiltinFunction { name: "guile", doc: "Evaluate GNU Guile code (if compiled with Guile support).", params: vec!["code"] };
    assert(f@.params =~= spec_builtin_functions()[36].params);
    f
}

fn builtin_function_37() -> (f: BuiltinFunction)
    ensures
        f@ == spec_builtin_functions()[37],
{
    let f = BuiltinFunction { name: "let", doc: "Bind words from *list* to *var…* and expand *text*.", params: vec!["var…", "list", "text"] };
    assert(f@.params =~= spec_builtin_functions()[37].params);
    f
}

/// All built-in GNU Make functions, in table order.
pub fn builtin_functions() -> (v: Vec<BuiltinFunction>)
    ensures
        v@.map_values(|f: BuiltinFunction| f@) == spec_builtin_functions(),
{
    let mut v: Vec<BuiltinFunction> = Vec::new();
    v.push(builtin_function_0());
    v.push(builtin_function_1());
    v.push(builtin_function_2());
    v.push(builtin_function_3());
    v.push(builtin_function_4());
    v.push(builtin_function_5());
    v.push(builtin_function_6());
    v.push(builtin_function_7());
    v.push(builtin_function_8());
    v.push(builtin_function_9());
    v.push(builtin_function_10());
    v.push(builtin_function_11());
    v.push(builtin_function_12());
    v.push(builtin_function_13());
    v.push(builtin_function_14());
    v.push(builtin_function_15());
    v.push(builtin_function_16());
    v.push(builtin_function_17());
    v.push(builtin_function_18());
    v.push(builtin_function_19());
    v.push(builtin_function_20());
    v.push(builtin_function_21());
    v.push(builtin_function_22());
    v.push(builtin_function_23());
    v.push(builtin_function_24());
    v.push(builtin_function_25());
    v.push(builtin_function_26());
    v.push(builtin_function_27());
    v.push(builtin_function_28());
    v.push(builtin_function_29());
    v.push(builtin_function_30());
    v.push(builtin_function_31());
    v.push(builtin_function_32());
    v.push(builtin_function_33());
    v.push(builtin_function_34());
    v.push(builtin_function_35());
    v.push(builtin_function_36());
    v.push(builtin_function_37());
    assert(v@.map_values(|f: BuiltinFunction| f@) =~= spec_builtin_functions());
    v
}

/// GNU Make automatic variables (single-character after $).
pub open spec fn spec_automatic_variables() -> Seq<(Seq<char>, Seq<char>)> {
    seq![
        ("@"@, "The file name of the target of the rule."@),
        ("<"@, "The name of the first prerequisite."@),
        ("^"@, "The names of all the prerequisites, with spaces between them (no duplicates)."@),
        ("+"@, "Like `$^`, but prerequisites listed more than once are duplicated in the order they were listed."@),
        ("?"@, "The names of all the prerequisites that are newer than the target."@),
        ("*"@, "The stem with which an implicit rule matches."@),
        ("%"@, "The stem of a static pattern rule."@),
        ("@D"@, "The directory part of `$@`."@),
        ("@F"@, "The file-within-directory part of `$@`."@),
        ("<D"@, "The directory part of `$<`."@),
        ("<F"@, "The file-within-directory part of `$<`."@),
    ]
}

/// GNU Make automatic variables (single-character after $).
pub fn automatic_variables() -> (v: Vec<(&'static str, &'static str)>)
    ensures
        pairs_view(v@) == spec_automatic_variables(),
{
    let v: Vec<(&'static str, &'static str)> = vec![
        ("@", "The file name of the target of the rule."),
        ("<", "The name of the first prerequisite."),
        ("^", "The names of all the prerequisites, with spaces between them (no duplicates)."),
        ("+", "Like `$^`, but prerequisites listed more than once are duplicated in the order they were listed."),
        ("?", "The names of all the prerequisites that are newer than the target."),
        ("*", "The stem with which an implicit rule matches."),
        ("%", "The stem of a static pattern rule."),
        ("@D", "The directory part of `$@`."),
        ("@F", "The file-within-directory part of `$@`."),
        ("<D", "The directory part of `$<`."),
        ("<F", "The file-within-directory part of `$<`."),
    ];
    assert(pairs_view(v@) =~= spec_automatic_variables());
    v
}

/// GNU Make automatic variable variants (e.g. $(@D), $(@F)), with their
/// descriptions.
pub open spec fn spec_automatic_variable_variant_docs() -> Seq<(Seq<char>, Seq<char>)> {
    seq![
        ("@D"@, "The directory part of `$@`."@),
        ("@F"@, "The file-within-directory part of `$@`."@),
        ("<D"@, "The directory part of `$<`."@),
        ("<F"@, "The file-within-directory part of `$<`."@),
        ("^D"@, "The directory part of `$^`."@),
        ("^F"@, "The file-within-directory part of `$^`."@),
        ("+D"@, "The directory part of `$+`."@),
        ("+F"@, "The file-within-directory part of `$+`."@),
        ("?D"@, "The directory part of `$?`."@),
        ("?F"@, "The file-within-directory part of `$?`."@),
        ("*D"@, "The directory part of `$*`."@),
        ("*F"@, "The file-within-directory part of `$*`."@),
    ]
}

/// GNU Make automatic variable variants (e.g. $(@D), $(@F)), with their
/// descriptions.
pub fn automatic_variable_variant_docs() -> (v: Vec<(&'static str, &'static str)>)
    ensures
        pairs_view(v@) == spec_automatic_variable_variant_docs(),
{
    let v: Vec<(&'static str, &'static str)> = vec![
        ("@D", "The directory part of `$@`."),
        ("@F", "The file-within-directory part of `$@`."),
        ("<D", "The directory part of `$<`."),
        ("<F", "The file-within-directory part of `$<`."),
        ("^D", "The directory part of `$^`."),
        ("^F", "The file-within-directory part of `$^`."),
        ("+D", "The directory part of `$+`."),
        ("+F", "The file-within-directory part of `$+`."),
        ("?D", "The directory part of `$?`."),
        ("?F", "The file-within-directory part of `$?`."),
        ("*D", "The directory part of `$*`."),
        ("*F", "The file-within-directory part of `$*`."),
    ];
    assert(pairs_view(v@) =~= spec_automatic_variable_variant_docs());
    v
}

/// GNU Make automatic variable variants (e.g. $(@D), $(@F)).
pub open spec fn spec_automatic_variable_variants() -> Seq<Seq<char>> {
    pair_names(spec_automatic_variable_variant_docs())
}

/// The first components of the pairs of `table`.
fn names_of(table: &Vec<(&'static str, &'static str)>) -> (v: Vec<&'static str>)
    ensures
        strs_view(v@) == pair_names(pairs_view(table@)),
{
    let ghost t = pairs_view(table@);
    let mut v: Vec<&'static str> = Vec::new();
    let mut i: usize = 0;
    while i < table.len()
        invariant
            i <= table@.len(),
            t == pairs_view(table@),
            strs_view(v@) == pair_names(t.subrange(0, i as int)),
        decreases table@.len() - i,
    {
        let ghost before = v@;
        v.push(table[i].0);
        assert(t[i as int].0 == table@[i as int].0@);
        assert(strs_view(v@) =~= strs_view(before).push(table@[i as int].0@));
        assert(pair_names(t.subrange(0, i + 1)) =~= pair_names(t.subrange(0, i as int)).push(t[i as int].0));
        i += 1;
    }
    assert(t.subrange(0, i as int) =~= t);
    v
}

/// GNU Make automatic variable variants (e.g. $(@D), $(@F)).
pub fn automatic_variable_variants() -> (v: Vec<&'static str>)
    ensures
        strs_view(v@) == spec_automatic_variable_variants(),
{
    names_of(&automatic_variable_variant_docs())
}

/// Well-known GNU Make built-in variables, with their descriptions.
pub open spec fn spec_builtin_variable_docs() -> Seq<(Seq<char>, Seq<char>)> {
    seq![
        ("MAKE"@, "The name of the make program being run."@),
        ("MAKECMDGOALS"@, "The targets given to make on the command line."@),
        ("MAKEFLAGS"@, "The flags given to make, passed on to sub-makes."@),
        ("MAKEFILES"@, "Makefiles to read before the others."@),
        ("MAKELEVEL"@, "The depth of recursive make invocations."@),
        ("MAKEOVERRIDES"@, "The variable definitions given on the command line."@),
        ("MAKESHELL"@, "The shell used by make on MS-DOS."@),
        ("MAKE_RESTARTS"@, "The number of times make has restarted."@),
        ("MAKE_TERMERR"@, "Set when the standard error of make is a terminal."@),
        ("MAKE_TERMOUT"@, "Set when the standard output of make is a terminal."@),
        ("MAKE_VERSION"@, "The version number of GNU make."@),
        ("MFLAGS"@, "The flags given to make, in the historical format."@),
        ("SHELL"@, "The shell that runs recipes (default: /bin/sh)."@),
        ("SUFFIXES"@, "The default list of suffixes for suffix rules."@),
        ("VPATH"@, "Directories to search for prerequisites."@),
        (".DEFAULT_GOAL"@, "The target built when none is given on the command line."@),
        (".EXTRA_PREREQS"@, "Prerequisites added to every target, outside the automatic variables."@),
        (".FEATURES"@, "The special features this version of make supports."@),
        (".INCLUDE_DIRS"@, "The directories make searches for included makefiles."@),
        (".LOADED"@, "The dynamic objects that have been loaded."@),
        (".RECIPEPREFIX"@, "The character that starts recipe lines (default: tab)."@),
        (".SHELLFLAGS"@, "The arguments passed to the shell (default: -c)."@),
        (".VARIABLES"@, "The names of all global variables defined so far."@),
        ("AR"@, "Archive-maintaining program (default: ar)."@),
        ("ARFLAGS"@, "Flags for the archive-maintaining program (default: rv)."@),
        ("AS"@, "Assembler (default: as)."@),
        ("ASFLAGS"@, "Extra flags for the assembler."@),
        ("CC"@, "C compiler (default: cc)."@),
        ("CFLAGS"@, "Extra flags for the C compiler."@),
        ("CO"@, "Program for extracting files from RCS (default: co)."@),
        ("COFLAGS"@, "Extra flags for the RCS co program."@),
        ("CPP"@, "C preprocessor (default: $(CC) -E)."@),
        ("CPPFLAGS"@, "Extra flags for the C preprocessor."@),
        ("CTANGLE"@, "Program for converting CWEB to C (default: ctangle)."@),
        ("CWEAVE"@, "Program for converting CWEB to TeX (default: cweave)."@),
        ("CXX"@, "C++ compiler (default: g++)."@),
        ("CXXFLAGS"@, "Extra flags for the C++ compiler."@),
        ("FC"@, "Fortran and Ratfor compiler (default: f77)."@),
        ("FFLAGS"@, "Extra flags for the Fortran compiler."@),
        ("GET"@, "Program for extracting files from SCCS (default: get)."@),
        ("GFLAGS"@, "Extra flags for the SCCS get program."@),
        ("LDFLAGS"@, "Extra flags for the linker."@),
        ("LDLIBS"@, "Libraries given to the linker."@),
        ("LEX"@, "Program for turning Lex grammars into C (default: lex)."@),
        ("LFLAGS"@, "Extra flags for Lex."@),
        ("LINT"@, "Program for running lint on source code (default: lint)."@),
        ("LINTFLAGS"@, "Extra flags for lint."@),
        ("M2C"@, "Modula-2 compiler (default: m2c)."@),
        ("MAKEINFO"@, "Program for converting Texinfo to Info (default: makeinfo)."@),
        ("PC"@, "Pascal compiler (default: pc)."@),
        ("PFLAGS"@, "Extra flags for the Pascal compiler."@),
        ("RFLAGS"@, "Extra flags for the Fortran compiler on Ratfor programs."@),
        ("RM"@, "Command to remove a file (default: rm -f)."@),
        ("TANGLE"@, "Program for converting Web to Pascal (default: tangle)."@),
        ("TEX"@, "Program for making TeX DVI files from TeX source (default: tex)."@),
        ("TEXI2DVI"@, "Program for making TeX DVI files from Texinfo source (default: texi2dvi)."@),
        ("WEAVE"@, "Program for converting Web to TeX (default: weave)."@),
        ("YACC"@, "Program for turning Yacc grammars into C (default: yacc)."@),
        ("YFLAGS"@, "Extra flags for Yacc."@),
        ("CURDIR"@, "The absolute pathname of the current working directory."@),
        ("HOME"@, "The home directory of the user."@),
        ("PATH"@, "The directories searched for commands."@),
        ("PWD"@, "The current working directory, as the environment gives it."@),
        ("TERM"@, "The terminal type, as the environment gives it."@),
        ("USER"@, "The name of the user."@),
        ("OUTPUT_OPTION"@, "The option naming the output file of a compilation (default: -o $@)."@),
        (".LIBPATTERNS"@, "Patterns for the names of the libraries that `-lNAME` prerequisites name."@),
    ]
}

/// Well-known GNU Make built-in variables, with their descriptions.
pub fn builtin_variable_docs() -> (v: Vec<(&'static str, &'static str)>)
    ensures
        pairs_view(v@) == spec_builtin_variable_docs(),
{
    let v: Vec<(&'static str, &'static str)> = vec![
        ("MAKE", "The name of the make program being run."),
        ("MAKECMDGOALS", "The targets given to make on the command line."),
        ("MAKEFLAGS", "The flags given to make, passed on to sub-makes."),
        ("MAKEFILES", "Makefiles to read before the others."),
        ("MAKELEVEL", "The depth of recursive make invocations."),
        ("MAKEOVERRIDES", "The variable definitions given on the command line."),
        ("MAKESHELL", "The shell used by make on MS-DOS."),
        ("MAKE_RESTARTS", "The number of times make has restarted."),
        ("MAKE_TERMERR", "Set when the standard error of make is a terminal."),
        ("MAKE_TERMOUT", "Set when the standard output of make is a terminal."),
        ("MAKE_VERSION", "The version number of GNU make."),
        ("MFLAGS", "The flags given to make, in the historical format."),
        ("SHELL", "The shell that runs recipes (default: /bin/sh)."),
        ("SUFFIXES", "The default list of suffixes for suffix rules."),
        ("VPATH", "Directories to search for prerequisites."),
        (".DEFAULT_GOAL", "The target built when none is given on the command line."),
        (".EXTRA_PREREQS", "Prerequisites added to every target, outside the automatic variables."),
        (".FEATURES", "The special features this version of make supports."),
        (".INCLUDE_DIRS", "The directories make searches for included makefiles."),
        (".LOADED", "The dynamic objects that have been loaded."),
        (".RECIPEPREFIX", "The character that starts recipe lines (default: tab)."),
        (".SHELLFLAGS", "The arguments passed to the shell (default: -c)."),
        (".VARIABLES", "The names of all global variables defined so far."),
        ("AR", "Archive-maintaining program (default: ar)."),
        ("ARFLAGS", "Flags for the archive-maintaining program (default: rv)."),
        ("AS", "Assembler (default: as)."),
        ("ASFLAGS", "Extra flags for the assembler."),
        ("CC", "C compiler (default: cc)."),
        ("CFLAGS", "Extra flags for the C compiler."),
        ("CO", "Program for extracting files from RCS (default: co)."),
        ("COFLAGS", "Extra flags for the RCS co program."),
        ("CPP", "C preprocessor (default: $(CC) -E)."),
        ("CPPFLAGS", "Extra flags for the C preprocessor."),
        ("CTANGLE", "Program for converting CWEB to C (default: ctangle)."),
        ("CWEAVE", "Program for converting CWEB to TeX (default: cweave)."),
        ("CXX", "C++ compiler (default: g++)."),
        ("CXXFLAGS", "Extra flags for the C++ compiler."),
        ("FC", "Fortran and Ratfor compiler (default: f77)."),
        ("FFLAGS", "Extra flags for the Fortran compiler."),
        ("GET", "Program for extracting files from SCCS (default: get)."),
        ("GFLAGS", "Extra flags for the SCCS get program."),
        ("LDFLAGS", "Extra flags for the linker."),
        ("LDLIBS", "Libraries given to the linker."),
        ("LEX", "Program for turning Lex grammars into C (default: lex)."),
        ("LFLAGS", "Extra flags for Lex."),
        ("LINT", "Program for running lint on source code (default: lint)."),
        ("LINTFLAGS", "Extra flags for lint."),
        ("M2C", "Modula-2 compiler (default: m2c)."),
        ("MAKEINFO", "Program for converting Texinfo to Info (default: makeinfo)."),
        ("PC", "Pascal compiler (default: pc)."),
        ("PFLAGS", "Extra flags for the Pascal compiler."),
        ("RFLAGS", "Extra flags for the Fortran compiler on Ratfor programs."),
        ("RM", "Command to remove a file (default: rm -f)."),
        ("TANGLE", "Program for converting Web to Pascal (default: tangle)."),
        ("TEX", "Program for making TeX DVI files from TeX source (default: tex)."),
        ("TEXI2DVI", "Program for making TeX DVI files from Texinfo source (default: texi2dvi)."),
        ("WEAVE", "Program for converting Web to TeX (default: weave)."),
        ("YACC", "Program for turning Yacc grammars into C (default: yacc)."),
        ("YFLAGS", "Extra flags for Yacc."),
        ("CURDIR", "The absolute pathname of the current working directory."),
        ("HOME", "The home directory of the user."),
        ("PATH", "The directories searched for commands."),
        ("PWD", "The current working directory, as the environment gives it."),
        ("TERM", "The terminal type, as the environment gives it."),
        ("USER", "The name of the user."),
        ("OUTPUT_OPTION", "The option naming the output file of a compilation (default: -o $@)."),
        (".LIBPATTERNS", "Patterns for the names of the libraries that `-lNAME` prerequisites name."),
    ];
    assert(pairs_view(v@) =~= spec_builtin_variable_docs());
    v
}

/// Well-known GNU Make built-in variables.
pub open spec fn spec_builtin_variables() -> Seq<Seq<char>> {
    pair_names(spec_builtin_variable_docs())
}

/// Well-known GNU Make built-in variables.
pub fn builtin_variables() -> (v: Vec<&'static str>)
    ensures
        strs_view(v@) == spec_builtin_variables(),
{
    names_of(&builtin_variable_docs())
}

/// Well-known GNU Make special targets.
pub open spec fn spec_special_targets() -> Seq<(Seq<char>, Seq<char>)> {
    seq![
        (".PHONY"@, "Declare targets that do not represent files."@),
        (".SUFFIXES"@, "Define the list of suffixes for old-fashioned suffix rules."@),
        (".DEFAULT"@, "Recipe for targets with no other rule."@),
        (".PRECIOUS"@, "Targets that should not be deleted if make is interrupted."@),
        (".INTERMEDIATE"@, "Targets treated as intermediate files."@),
        (".SECONDARY"@, "Targets treated as secondary (intermediate but never auto-deleted)."@),
        (".SECONDEXPANSION"@, "Enable second expansion of prerequisites."@),
        (".DELETE_ON_ERROR"@, "Delete the target file if its recipe exits with a nonzero status."@),
        (".IGNORE"@, "Ignore errors in recipes for these targets."@),
        (".SILENT"@, "Do not echo recipes for these targets."@),
        (".EXPORT_ALL_VARIABLES"@, "Export all variables to child processes."@),
        (".NOTPARALLEL"@, "Disable parallel execution of recipes."@),
        (".ONESHELL"@, "Run entire recipe in a single shell invocation."@),
        (".POSIX"@, "Enable POSIX-conforming mode."@),
    ]
}

/// Well-known GNU Make special targets.
pub fn special_targets() -> (v: Vec<(&'static str, &'static str)>)
    ensures
        pairs_view(v@) == spec_special_targets(),
{
    let v: Vec<(&'static str, &'static str)> = vec![
        (".PHONY", "Declare targets that do not represent files."),
        (".SUFFIXES", "Define the list of suffixes for old-fashioned suffix rules."),
        (".DEFAULT", "Recipe for targets with no other rule."),
        (".PRECIOUS", "Targets that should not be deleted if make is interrupted."),
        (".INTERMEDIATE", "Targets treated as intermediate files."),
        (".SECONDARY", "Targets treated as secondary (intermediate but never auto-deleted)."),
        (".SECONDEXPANSION", "Enable second expansion of prerequisites."),
        (".DELETE_ON_ERROR", "Delete the target file if its recipe exits with a nonzero status."),
        (".IGNORE", "Ignore errors in recipes for these targets."),
        (".SILENT", "Do not echo recipes for these targets."),
        (".EXPORT_ALL_VARIABLES", "Export all variables to child processes."),
        (".NOTPARALLEL", "Disable parallel execution of recipes."),
        (".ONESHELL", "Run entire recipe in a single shell invocation."),
        (".POSIX", "Enable POSIX-conforming mode."),
    ];
    assert(pairs_view(v@) =~= spec_special_targets());
    v
}

/// Names of all built-in functions.
pub open spec fn spec_builtin_function_names() -> Seq<Seq<char>> {
    spec_builtin_functions().map_values(|f: BuiltinFunctionSpec| f.name)
}

/// The first function in `t` with the given name.
pub open spec fn first_function_named(t: Seq<BuiltinFunctionSpec>, name: Seq<char>) -> Option<
    BuiltinFunctionSpec,
>
    decreases t.len(),
{
    if t.len() == 0 {
        None
    } else if t[0].name == name {
        Some(t[0])
    } else {
        first_function_named(t.drop_first(), name)
    }
}

/// The description paired with the first occurrence of `name` in `t`.
pub open spec fn lookup_doc(t: Seq<(Seq<char>, Seq<char>)>, name: Seq<char>) -> Option<Seq<char>>
    decreases t.len(),
{
    if t.len() == 0 {
        None
    } else if t[0].0 == name {
        Some(t[0].1)
    } else {
        lookup_doc(t.drop_first(), name)
    }
}

/// The first components of the pairs in `t`.
pub open spec fn pair_names(t: Seq<(Seq<char>, Seq<char>)>) -> Seq<Seq<char>> {
    t.map_values(|p: (Seq<char>, Seq<char>)| p.0)
}

/// Is `name` one of `names`?
pub fn contains_str(names: &Vec<&'static str>, name: &str) -> (r: bool)
    ensures
        r == strs_view(names@).contains(name@),
{
    let mut i: usize = 0;
    while i < names.len()
        invariant
            i <= names@.len(),
            forall|j: int| 0 <= j < i ==> names@[j]@ != name@,
        decreases names@.len() - i,
    {
        if str_eq(names[i], name) {
            assert(strs_view(names@)[i as int] == name@);
            return true;
        }
        i += 1;
    }
    assert(!strs_view(names@).contains(name@)) by {
        if strs_view(names@).contains(name@) {
            let k = choose|k: int| 0 <= k < strs_view(names@).len() && strs_view(names@)[k] == name@;
            assert(names@[k]@ == name@);
        }
    }
    false
}

proof fn lemma_lookup_doc_skip(t: Seq<(Seq<char>, Seq<char>)>, i: int, name: Seq<char>)
    requires
        0 <= i <= t.len(),
        forall|j: int| 0 <= j < i ==> t[j].0 != name,
    ensures
        lookup_doc(t, name) == lookup_doc(t.subrange(i, t.len() as int), name),
    decreases i,
{
    if i > 0 {
        assert(t.drop_first().subrange(i - 1, t.drop_first().len() as int) =~= t.subrange(i, t.len() as int));
        assert(t[0].0 != name);
        lemma_lookup_doc_skip(t.drop_first(), i - 1, name);
    } else {
        assert(t.subrange(0, t.len() as int) =~= t);
    }
}

/// The description of the first pair named `name`.
pub fn lookup_pair(table: &Vec<(&'static str, &'static str)>, name: &str) -> (r: Option<&'static str>)
    ensures
        r matches Some(d) ==> lookup_doc(pairs_view(table@), name@) == Some(d@),
        r is None ==> lookup_doc(pairs_view(table@), name@) is None,
        r is Some <==> pair_names(pairs_view(table@)).contains(name@),
{
    let ghost t = pairs_view(table@);
    let mut i: usize = 0;
    while i < table.len()
        invariant
            i <= table@.len(),
            t == pairs_view(table@),
            forall|j: int| 0 <= j < i ==> t[j].0 != name@,
        decreases table@.len() - i,
    {
        if str_eq(table[i].0, name) {
            proof {
                lemma_lookup_doc_skip(t, i as int, name@);
                assert(pair_names(t)[i as int] == name@);
            }
            return Some(table[i].1);
        }
        i += 1;
    }
    proof {
        lemma_lookup_doc_skip(t, i as int, name@);
        if pair_names(t).contains(name@) {
            let k = choose|k: int| 0 <= k < pair_names(t).len() && pair_names(t)[k] == name@;
            assert(t[k].0 == name@);
        }
    }
    None
}

/// Check if a name is a built-in function.
pub fn is_builtin_function(name: &str) -> (r: bool)
    ensures
        r == spec_builtin_function_names().contains(name@),
{
    find_builtin_function(name).is_some()
}

proof fn lemma_first_function_skip(t: Seq<BuiltinFunctionSpec>, i: int, name: Seq<char>)
    requires
        0 <= i <= t.len(),
        forall|j: int| 0 <= j < i ==> t[j].name != name,
    ensures
        first_function_named(t, name) == first_function_named(t.subrange(i, t.len() as int), name),
    decreases i,
{
    if i > 0 {
        assert(t.drop_first().subrange(i - 1, t.drop_first().len() as int) =~= t.subrange(i, t.len() as int));
        assert(t[0].name != name);
        lemma_first_function_skip(t.drop_first(), i - 1, name);
    } else {
        assert(t.subrange(0, t.len() as int) =~= t);
    }
}

/// Find a built-in function by name.
pub fn find_builtin_function(name: &str) -> (r: Option<BuiltinFunction>)
    ensures
        r matches Some(f) ==> first_function_named(spec_builtin_functions(), name@) == Some(f@),
        r is None ==> first_function_named(spec_builtin_functions(), name@) is None,
        r is Some <==> spec_builtin_function_names().contains(name@),
{
    let mut fs = builtin_functions();
    let ghost t = spec_builtin_functions();
    let n = fs.len();
    let mut i: usize = 0;
    while i < n
        invariant
            n == fs@.len() == t.len(),
            i <= n,
            fs@.map_values(|f: BuiltinFunction| f@) == t,
            t == spec_builtin_functions(),
            forall|j: int| 0 <= j < i ==> t[j].name != name@,
        decreases n - i,
    {
        assert(fs@.map_values(|f: BuiltinFunction| f@)[i as int] == fs@[i as int]@);
        if str_eq(fs[i].name, name) {
            proof {
                lemma_first_function_skip(t, i as int, name@);
                assert(spec_builtin_function_names()[i as int] == name@);
            }
            let f = fs.swap_remove(i);
            return Some(f);
        }
        i += 1;
    }
    proof {
        lemma_first_function_skip(t, i as int, name@);
        if spec_builtin_function_names().contains(name@) {
            let k = choose|k: int| 0 <= k < spec_builtin_function_names().len() && spec_builtin_function_names()[k] == name@;
            assert(t[k].name == name@);
        }
    }
    None
}

/// The documentation of an automatic variable (`@`, `<`, ...) or of one of
/// its variants (`@D`, `^F`, ...).
pub open spec fn spec_automatic_doc(name: Seq<char>) -> Option<Seq<char>> {
    match lookup_doc(spec_automatic_variables(), name) {
        Some(d) => Some(d),
        None => lookup_doc(spec_automatic_variable_variant_docs(), name),
    }
}

/// Documentation of an automatic variable (`@`, `<`, `@D`, ...), if known.
pub fn find_automatic_variable(name: &str) -> (r: Option<&'static str>)
    ensures
        r matches Some(d) ==> spec_automatic_doc(name@) == Some(d@),
        r is None ==> spec_automatic_doc(name@) is None,
{
    match lookup_pair(&automatic_variables(), name) {
        Some(d) => Some(d),
        None => lookup_pair(&automatic_variable_variant_docs(), name),
    }
}

/// Description of a built-in variable (`MAKE`, `CC`, ...), if known.
pub fn find_builtin_variable(name: &str) -> (r: Option<&'static str>)
    ensures
        r matches Some(d) ==> lookup_doc(spec_builtin_variable_docs(), name@) == Some(d@),
        r is None ==> lookup_doc(spec_builtin_variable_docs(), name@) is None,
{
    lookup_pair(&builtin_variable_docs(), name)
}

/// Description of a special target (`.PHONY`, ...), if known.
pub fn find_special_target(name: &str) -> (r: Option<&'static str>)
    ensures
        r matches Some(d) ==> lookup_doc(spec_special_targets(), name@) == Some(d@),
        r is None ==> lookup_doc(spec_special_targets(), name@) is None,
{
    lookup_pair(&special_targets(), name)
}

/// Is `name` a special target (`.PHONY`, ...)?
pub fn is_special_target(name: &str) -> (r: bool)
    ensures
        r == pair_names(spec_special_targets()).contains(name@),
{
    lookup_pair(&special_targets(), name).is_some()
}

/// Is `name` a well-known built-in variable?
pub fn is_builtin_variable(name: &str) -> (r: bool)
    ensures
        r == spec_builtin_variables().contains(name@),
{
    contains_str(&builtin_variables(), name)
}

/// The names GNU Make knows without a definition in the file: automatic
/// variables and their variants, built-in variables and built-in functions.
pub open spec fn spec_is_known_variable(name: Seq<char>) -> bool {
    ||| pair_names(spec_automatic_variables()).contains(name)
    ||| spec_automatic_variable_variants().contains(name)
    ||| spec_builtin_variables().contains(name)
    ||| spec_builtin_function_names().contains(name)
}

/// Check if a variable name is a known built-in (variable, automatic, or function).
pub fn is_known_variable(name: &str) -> (r: bool)
    ensures
        r == spec_is_known_variable(name@),
{
    lookup_pair(&automatic_variables(), name).is_some() || contains_str(
        &automatic_variable_variants(),
        name,
    ) || contains_str(&builtin_variables(), name) || is_builtin_function(name)
}

} // verus!
