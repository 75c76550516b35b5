//! The interactive session's slash commands: what a `/…` line asks for,
//! and the call-graph report that `/graph` prints.

use vstd::prelude::*;
use lasso::Spur;
use crate::text::{split_ws, str_eq, ws_tokens};
use crate::index::graph::{CsrGraph, csr_list, reaches};
use crate::index::scc::Condensation;
use crate::index::labels::ReachLabels;
use crate::index::resolve::{NameIndex, definition, lemma_definition_in_range};
use crate::index::symbol::Symbol;
use crate::index::witness::symbol_reaches;

verus! {

/// What an input line asks for.
#[derive(Debug)]
pub enum SlashCommand {
    /// `/quit`, `/q` or `/exit`.
    Quit,
    /// `/entrypoints`: list the entry points.
    EntryPoints,
    /// `/graph NAME`: the call-graph neighbourhood of a symbol (the name is
    /// empty when none is given).
    Graph { symbol: String },
    /// `/cost`: what the session has spent.
    Cost,
    /// Any other `/…` word.
    Unknown { cmd: String },
    /// A line that is not a command: a question for the model.
    Chat,
}

/// The command a line holds: a line starting with `/` is a command named by
/// its first whitespace-separated word, `/graph` taking the second word as
/// its argument; any other line is a question.
pub open spec fn slash_of(line: Seq<char>) -> SlashCommand {
    if line.len() == 0 || line[0] != '/' {
        SlashCommand::Chat
    } else {
        let toks = ws_tokens(line.skip(1));
        let cmd = if toks.len() > 0 { toks[0] } else { Seq::empty() };
        if cmd == seq!['q', 'u', 'i', 't'] || cmd == seq!['q'] || cmd == seq!['e', 'x', 'i', 't'] {
            SlashCommand::Quit
        } else if cmd == seq!['e', 'n', 't', 'r', 'y', 'p', 'o', 'i', 'n', 't', 's'] {
            SlashCommand::EntryPoints
        } else if cmd == seq!['g', 'r', 'a', 'p', 'h'] {
            SlashCommand::Graph { symbol: arbitrary() }
        } else if cmd == seq!['c', 'o', 's', 't'] {
            SlashCommand::Cost
        } else {
            SlashCommand::Unknown { cmd: arbitrary() }
        }
    }
}

/// The word after the command, or nothing.
pub open spec fn slash_arg(line: Seq<char>) -> Seq<char> {
    let toks = ws_tokens(line.skip(1));
    if toks.len() > 1 { toks[1] } else { Seq::empty() }
}

/// The command word itself.
pub open spec fn slash_word(line: Seq<char>) -> Seq<char> {
    let toks = ws_tokens(line.skip(1));
    if toks.len() > 0 { toks[0] } else { Seq::empty() }
}

/// The command words documented for leaving the session.
pub open spec fn quit_words() -> Seq<Seq<char>> {
    seq!["quit"@, "q"@, "exit"@]
}

/// The documented commands: on a `/` line, `/quit`, `/q` and `/exit` quit,
/// `/entrypoints`, `/graph` and `/cost` are their own commands, and any
/// other word is unknown.
pub proof fn lemma_documented_commands(line: Seq<char>)
    requires
        line.len() > 0,
        line[0] == '/',
    ensures
        quit_words().contains(slash_word(line)) <==> slash_of(line) is Quit,
        slash_word(line) == "entrypoints"@ <==> slash_of(line) is EntryPoints,
        slash_word(line) == "graph"@ <==> slash_of(line) is Graph,
        slash_word(line) == "cost"@ <==> slash_of(line) is Cost,
        !quit_words().contains(slash_word(line)) && slash_word(line) != "entrypoints"@
            && slash_word(line) != "graph"@ && slash_word(line) != "cost"@ <==> slash_of(line) is Unknown,
{
    reveal_strlit("quit");
    reveal_strlit("q");
    reveal_strlit("exit");
    reveal_strlit("entrypoints");
    reveal_strlit("graph");
    reveal_strlit("cost");
    let l = quit_words();
    let w = slash_word(line);
    assert("quit"@ =~= seq!['q', 'u', 'i', 't']);
    assert("q"@ =~= seq!['q']);
    assert("exit"@ =~= seq!['e', 'x', 'i', 't']);
    assert("entrypoints"@ =~= seq!['e', 'n', 't', 'r', 'y', 'p', 'o', 'i', 'n', 't', 's']);
    assert("graph"@ =~= seq!['g', 'r', 'a', 'p', 'h']);
    assert("cost"@ =~= seq!['c', 'o', 's', 't']);
    if l.contains(w) {
        let i = choose|i: int| 0 <= i < l.len() && l[i] == w;
        assert(0 <= i < 3);
    }
    if w == seq!['q', 'u', 'i', 't'] {
        assert(l[0] == w);
    } else if w == seq!['q'] {
        assert(l[1] == w);
    } else if w == seq!['e', 'x', 'i', 't'] {
        assert(l[2] == w);
    }
    assert("graph"@ != "cost"@) by {
        assert("graph"@.len() != "cost"@.len());
    }
    assert("entrypoints"@.len() != "graph"@.len() && "entrypoints"@.len() != "cost"@.len());
}

/// Which command `line` holds, with its argument.
pub fn parse_slash(line: &str) -> (c: SlashCommand)
    ensures
        match (c, slash_of(line@)) {
            (SlashCommand::Quit, SlashCommand::Quit) => true,
            (SlashCommand::EntryPoints, SlashCommand::EntryPoints) => true,
            (SlashCommand::Graph { symbol }, SlashCommand::Graph { .. }) => symbol@ == slash_arg(line@),
            (SlashCommand::Cost, SlashCommand::Cost) => true,
            (SlashCommand::Unknown { cmd }, SlashCommand::Unknown { .. }) => cmd@ == slash_word(line@),
            (SlashCommand::Chat, SlashCommand::Chat) => true,
            _ => false,
        },
{
    let n = line.unicode_len();
    if n == 0 || line.get_char(0) != '/' {
        return SlashCommand::Chat;
    }
    let rest = line.substring_char(1, n);
    proof {
        assert(rest@ =~= line@.skip(1));
    }
    let toks = split_ws(rest);
    let empty = "";
    proof {
        reveal_strlit("");
        reveal_strlit("quit");
        reveal_strlit("q");
        reveal_strlit("exit");
        reveal_strlit("entrypoints");
        reveal_strlit("graph");
        reveal_strlit("cost");
    }
    let cmd: &str = if toks.len() > 0 { toks[0] } else { empty };
    proof {
        assert(cmd@ == slash_word(line@));
        assert("quit"@ =~= seq!['q', 'u', 'i', 't']);
        assert("q"@ =~= seq!['q']);
        assert("exit"@ =~= seq!['e', 'x', 'i', 't']);
        assert("entrypoints"@ =~= seq!['e', 'n', 't', 'r', 'y', 'p', 'o', 'i', 'n', 't', 's']);
        assert("graph"@ =~= seq!['g', 'r', 'a', 'p', 'h']);
        assert("cost"@ =~= seq!['c', 'o', 's', 't']);
    }
    if str_eq(cmd, "quit") || str_eq(cmd, "q") || str_eq(cmd, "exit") {
        SlashCommand::Quit
    } else if str_eq(cmd, "entrypoints") {
        SlashCommand::EntryPoints
    } else if str_eq(cmd, "graph") {
        let arg: &str = if toks.len() > 1 { toks[1] } else { empty };
        SlashCommand::Graph { symbol: arg.to_owned() }
    } else if str_eq(cmd, "cost") {
        SlashCommand::Cost
    } else {
        SlashCommand::Unknown { cmd: cmd.to_owned() }
    }
}

/// The entry points among `es` that reach `id`, in order.
pub open spec fn reaching(g: CsrGraph, es: Seq<u32>, id: int) -> Seq<u32>
    decreases es.len(),
{
    if es.len() == 0 {
        Seq::empty()
    } else {
        reaching(g, es.drop_last(), id) + (if reaches(g, es.last() as int, id) { seq![es.last()] } else { Seq::empty() })
    }
}

/// What `/graph` shows of a symbol.
pub struct GraphReport {
    pub id: u32,
    pub callers: Vec<u32>,
    pub callees: Vec<u32>,
    /// The entry points that reach the symbol, in the order given.
    pub reached_from: Vec<u32>,
}

/// The `/graph` report of the symbol a name defines: its direct callers and
/// callees and the entry points that reach it; `None` for a name that
/// defines no symbol.
pub fn graph_report(names: &NameIndex, symbols: &[Symbol], graph: &CsrGraph, cond: &Condensation,
    labels: &ReachLabels, entries: &[u32], qual: Spur, last: Spur) -> (res: Option<GraphReport>)
    requires
        names.wf(),
        names.names().len() == symbols@.len(),
        graph.wf(),
        graph.spec_n() == symbols@.len(),
        cond.is_condensation_of(*graph),
        labels.labels_for(cond.dag),
        forall|k: int| 0 <= k < entries@.len() ==> #[trigger] entries@[k] < graph.spec_n(),
    ensures
        match definition(names.names(), names.quals(), symbols@, qual, last) {
            None => res is None,
            Some(id) => res matches Some(r) && {
                &&& r.id == id
                &&& r.callers@ == csr_list(graph.rev_offsets@, graph.rev_targets@, id as int)
                &&& r.callees@ == csr_list(graph.offsets@, graph.targets@, id as int)
                &&& r.reached_from@ == reaching(*graph, entries@, id as int)
            },
        },
{
    proof {
        names.lemma_wf_lengths();
        lemma_definition_in_range(names.names(), names.quals(), symbols@, qual, last);
    }
    let id = match names.definition_of(qual, last, symbols) {
        Some(id) => id,
        None => {
            return None;
        },
    };
    let callers = vstd::slice::slice_to_vec(graph.rev(id));
    let callees = vstd::slice::slice_to_vec(graph.out(id));
    let mut reached_from: Vec<u32> = Vec::new();
    let mut k: usize = 0;
    while k < entries.len()
        invariant
            k <= entries@.len(),
            graph.wf(),
            id < graph.spec_n(),
            cond.is_condensation_of(*graph),
            labels.labels_for(cond.dag),
            forall|x: int| 0 <= x < entries@.len() ==> #[trigger] entries@[x] < graph.spec_n(),
            reached_from@ == reaching(*graph, entries@.take(k as int), id as int),
        decreases entries@.len() - k,
    {
        let e = entries[k];
        proof {
            assert(entries@.take(k + 1).drop_last() =~= entries@.take(k as int));
        }
        if symbol_reaches(graph, cond, labels, e, id) {
            reached_from.push(e);
        }
        k = k + 1;
    }
    proof {
        assert(entries@.take(entries@.len() as int) =~= entries@);
    }
    Some(GraphReport { id, callers, callees, reached_from })
}

} // verus!
