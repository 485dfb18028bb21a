//! The command surface: the raw argument vector is tokenized once, up
//! front, into a flat ordered list of typed commands. Non-terminal commands
//! (`by`, `pick`, `bibtex`, `bibtex-stdin`) may be followed by further
//! commands; a terminal command must be the last word of the chain. An
//! unrecognizable chain is rejected wholesale, before anything runs.

use vstd::prelude::*;
use crate::strutil::str_eq;

verus! {

pub struct BibtexCmd {
    pub bibtex: String,
}

pub struct ListCmd {
    pub field: String,
}

pub struct UpdateCmd {
    pub field: String,
    pub value: String,
}

pub struct PickCmd {}

pub struct ByCmd {
    pub field: String,
    pub value: String,
}

pub enum Command {
    Add,
    Remove,
    Print,
    Export,
    Open,
    List(ListCmd),
    Update(UpdateCmd),
    Bibtex(BibtexCmd),
    BibtexStdin,
    Pick(PickCmd),
    By(ByCmd),
}

/// The mathematical shape of a parsed command.
pub enum CommandV {
    Add,
    Remove,
    Print,
    Export,
    Open,
    List(Seq<char>),
    Update(Seq<char>, Seq<char>),
    Bibtex(Seq<char>),
    BibtexStdin,
    Pick,
    By(Seq<char>, Seq<char>),
}

impl View for Command {
    type V = CommandV;

    open spec fn view(&self) -> CommandV {
        match self {
            Command::Add => CommandV::Add,
            Command::Remove => CommandV::Remove,
            Command::Print => CommandV::Print,
            Command::Export => CommandV::Export,
            Command::Open => CommandV::Open,
            Command::List(c) => CommandV::List(c.field@),
            Command::Update(c) => CommandV::Update(c.field@, c.value@),
            Command::Bibtex(c) => CommandV::Bibtex(c.bibtex@),
            Command::BibtexStdin => CommandV::BibtexStdin,
            Command::Pick(c) => CommandV::Pick,
            Command::By(c) => CommandV::By(c.field@, c.value@),
        }
    }
}

impl DeepView for Command {
    type V = CommandV;

    open spec fn deep_view(&self) -> CommandV {
        self.view()
    }
}

/// Whether a command ends the chain with its one effect.
pub open spec fn is_terminal(c: CommandV) -> bool {
    match c {
        CommandV::Add => true,
        CommandV::Remove => true,
        CommandV::Print => true,
        CommandV::Export => true,
        CommandV::Open => true,
        CommandV::List(f) => true,
        CommandV::Update(f, v) => true,
        CommandV::Bibtex(p) => false,
        CommandV::BibtexStdin => false,
        CommandV::Pick => false,
        CommandV::By(f, v) => false,
    }
}

/// The command-chain grammar over the argument words: a terminal command
/// with its fixed parameters must exhaust the words; a non-terminal one is
/// followed by the rest of the chain; an exhausted word list is a valid
/// (no-op) chain end; anything else is rejected.
pub open spec fn parse_spec(args: Seq<Seq<char>>) -> Option<Seq<CommandV>>
    decreases args.len(),
{
    if args.len() == 0 {
        Some(Seq::empty())
    } else if args[0] == "add"@ {
        if args.len() == 1 {
            Some(seq![CommandV::Add])
        } else {
            None
        }
    } else if args[0] == "remove"@ {
        if args.len() == 1 {
            Some(seq![CommandV::Remove])
        } else {
            None
        }
    } else if args[0] == "print"@ {
        if args.len() == 1 {
            Some(seq![CommandV::Print])
        } else {
            None
        }
    } else if args[0] == "export"@ {
        if args.len() == 1 {
            Some(seq![CommandV::Export])
        } else {
            None
        }
    } else if args[0] == "open"@ {
        if args.len() == 1 {
            Some(seq![CommandV::Open])
        } else {
            None
        }
    } else if args[0] == "list"@ {
        if args.len() == 2 {
            Some(seq![CommandV::List(args[1])])
        } else {
            None
        }
    } else if args[0] == "update"@ {
        if args.len() == 3 {
            Some(seq![CommandV::Update(args[1], args[2])])
        } else {
            None
        }
    } else if args[0] == "by"@ {
        if args.len() >= 3 {
            match parse_spec(args.skip(3)) {
                Some(rest) => Some(seq![CommandV::By(args[1], args[2])] + rest),
                None => None,
            }
        } else {
            None
        }
    } else if args[0] == "pick"@ {
        match parse_spec(args.skip(1)) {
            Some(rest) => Some(seq![CommandV::Pick] + rest),
            None => None,
        }
    } else if args[0] == "bibtex"@ {
        if args.len() >= 2 {
            match parse_spec(args.skip(2)) {
                Some(rest) => Some(seq![CommandV::Bibtex(args[1])] + rest),
                None => None,
            }
        } else {
            None
        }
    } else if args[0] == "bibtex-stdin"@ {
        match parse_spec(args.skip(1)) {
            Some(rest) => Some(seq![CommandV::BibtexStdin] + rest),
            None => None,
        }
    } else {
        None
    }
}

/// A terminal command can only stand last: in any chain the grammar
/// accepts, every command before the final one is non-terminal, so the one
/// effect of the chain comes after all selection transforms.
pub proof fn lemma_terminal_ends_chain(args: Seq<Seq<char>>)
    requires
        parse_spec(args) is Some,
    ensures
        forall|i: int|
            0 <= i < parse_spec(args)->Some_0.len() - 1 ==> !is_terminal(
                #[trigger] parse_spec(args)->Some_0[i],
            ),
    decreases args.len(),
{
    let cmds = parse_spec(args)->Some_0;
    if args.len() == 0 {
    } else if args[0] == "by"@ && args.len() >= 3 && parse_spec(args.skip(3)) is Some {
        lemma_terminal_ends_chain(args.skip(3));
        let rest = parse_spec(args.skip(3))->Some_0;
        assert forall|i: int| 0 <= i < cmds.len() - 1 implies !is_terminal(
            #[trigger] cmds[i],
        ) by {
            if i >= 1 {
                assert(cmds[i] == rest[i - 1]);
            }
        }
    } else if args[0] == "pick"@ && parse_spec(args.skip(1)) is Some {
        lemma_terminal_ends_chain(args.skip(1));
        let rest = parse_spec(args.skip(1))->Some_0;
        assert forall|i: int| 0 <= i < cmds.len() - 1 implies !is_terminal(
            #[trigger] cmds[i],
        ) by {
            if i >= 1 {
                assert(cmds[i] == rest[i - 1]);
            }
        }
    } else if args[0] == "bibtex"@ && args.len() >= 2 && parse_spec(args.skip(2)) is Some {
        lemma_terminal_ends_chain(args.skip(2));
        let rest = parse_spec(args.skip(2))->Some_0;
        assert forall|i: int| 0 <= i < cmds.len() - 1 implies !is_terminal(
            #[trigger] cmds[i],
        ) by {
            if i >= 1 {
                assert(cmds[i] == rest[i - 1]);
            }
        }
    } else if args[0] == "bibtex-stdin"@ && parse_spec(args.skip(1)) is Some {
        lemma_terminal_ends_chain(args.skip(1));
        let rest = parse_spec(args.skip(1))->Some_0;
        assert forall|i: int| 0 <= i < cmds.len() - 1 implies !is_terminal(
            #[trigger] cmds[i],
        ) by {
            if i >= 1 {
                assert(cmds[i] == rest[i - 1]);
            }
        }
    } else {
        assert(cmds.len() <= 1);
    }
}

/// Tokenizes the whole argument vector into the command chain, or `None`
/// when the chain is malformed (a fatal usage error).
pub fn parse_commands(args: &Vec<String>) -> (r: Option<Vec<Command>>)
    ensures
        match r {
            Some(cmds) => parse_spec(args.deep_view()) == Some(cmds.deep_view()),
            None => parse_spec(args.deep_view()) is None,
        },
{
    let ghost args0 = args.deep_view();
    let mut cmds: Vec<Command> = Vec::new();
    let mut i: usize = 0;
    let n = args.len();
    proof {
        assert(args0.len() == n);
        assert(args0.skip(0) =~= args0);
        assert(cmds.deep_view() =~= Seq::<CommandV>::empty());
    }
    while i < n
        invariant
            i <= n,
            n == args0.len(),
            args0 == args.deep_view(),
            match parse_spec(args0.skip(i as int)) {
                Some(rest) => parse_spec(args0) == Some(cmds.deep_view() + rest),
                None => parse_spec(args0) is None,
            },
        decreases n - i,
    {
        let ghost t = args0.skip(i as int);
        let head = &args[i];
        proof {
            assert(t[0] == args0[i as int]);
            assert(args0[i as int] == head@);
        }
        if str_eq(head.as_str(), "add") || str_eq(head.as_str(), "remove") || str_eq(
            head.as_str(),
            "print",
        ) || str_eq(head.as_str(), "export") || str_eq(head.as_str(), "open") {
            if n - i != 1 {
                proof {
                    assert(parse_spec(t) is None);
                }
                return None;
            }
            let cmd = if str_eq(head.as_str(), "add") {
                Command::Add
            } else if str_eq(head.as_str(), "remove") {
                Command::Remove
            } else if str_eq(head.as_str(), "print") {
                Command::Print
            } else if str_eq(head.as_str(), "export") {
                Command::Export
            } else {
                Command::Open
            };
            cmds.push(cmd);
            proof {
                assert(t.len() == 1);
                assert(args0.skip(n as int) =~= Seq::<Seq<char>>::empty());
                assert(parse_spec(t) == Some(seq![cmd@]));
                assert(cmds.deep_view() =~~= cmds.deep_view().drop_last().push(cmd@));
                assert(cmds.deep_view().drop_last() + seq![cmd@] =~= cmds.deep_view());
            }
            i = n;
        } else if str_eq(head.as_str(), "list") {
            if n - i != 2 {
                proof {
                    assert(parse_spec(t) is None);
                }
                return None;
            }
            let cmd = Command::List(ListCmd { field: args[i + 1].clone() });
            cmds.push(cmd);
            proof {
                assert(t.len() == 2);
                assert(t[1] == args0[i as int + 1]);
                assert(args0.skip(n as int) =~= Seq::<Seq<char>>::empty());
                assert(parse_spec(t) == Some(seq![CommandV::List(args0[i as int + 1])]));
                assert(cmds.deep_view().drop_last() + seq![CommandV::List(args0[i as int + 1])]
                    =~= cmds.deep_view());
            }
            i = n;
        } else if str_eq(head.as_str(), "update") {
            if n - i != 3 {
                proof {
                    assert(parse_spec(t) is None);
                }
                return None;
            }
            let cmd = Command::Update(
                UpdateCmd { field: args[i + 1].clone(), value: args[i + 2].clone() },
            );
            cmds.push(cmd);
            proof {
                assert(t.len() == 3);
                assert(t[1] == args0[i as int + 1]);
                assert(t[2] == args0[i as int + 2]);
                assert(args0.skip(n as int) =~= Seq::<Seq<char>>::empty());
                assert(cmds.deep_view().drop_last() + seq![
                    CommandV::Update(args0[i as int + 1], args0[i as int + 2]),
                ] =~= cmds.deep_view());
            }
            i = n;
        } else if str_eq(head.as_str(), "by") {
            if n - i < 3 {
                proof {
                    assert(parse_spec(t) is None);
                }
                return None;
            }
            let cmd = Command::By(
                ByCmd { field: args[i + 1].clone(), value: args[i + 2].clone() },
            );
            cmds.push(cmd);
            proof {
                assert(t.len() >= 3);
                assert(t[1] == args0[i as int + 1]);
                assert(t[2] == args0[i as int + 2]);
                assert(t.skip(3) =~= args0.skip(i as int + 3));
                assert(cmds.deep_view().drop_last() + seq![
                    CommandV::By(args0[i as int + 1], args0[i as int + 2]),
                ] =~= cmds.deep_view());
                if parse_spec(args0.skip(i as int + 3)) is Some {
                    assert((cmds.deep_view().drop_last() + seq![
                        CommandV::By(args0[i as int + 1], args0[i as int + 2]),
                    ] + parse_spec(args0.skip(i as int + 3))->Some_0) =~= (
                    cmds.deep_view() + parse_spec(args0.skip(i as int + 3))->Some_0));
                }
            }
            i = i + 3;
        } else if str_eq(head.as_str(), "pick") {
            let cmd = Command::Pick(PickCmd {});
            cmds.push(cmd);
            proof {
                assert(t.skip(1) =~= args0.skip(i as int + 1));
                assert(cmds.deep_view().drop_last() + seq![CommandV::Pick] =~= cmds.deep_view());
                if parse_spec(args0.skip(i as int + 1)) is Some {
                    assert((cmds.deep_view().drop_last() + seq![CommandV::Pick] + parse_spec(
                        args0.skip(i as int + 1),
                    )->Some_0) =~= (cmds.deep_view() + parse_spec(
                        args0.skip(i as int + 1),
                    )->Some_0));
                }
            }
            i = i + 1;
        } else if str_eq(head.as_str(), "bibtex") {
            if n - i < 2 {
                proof {
                    assert(parse_spec(t) is None);
                }
                return None;
            }
            let cmd = Command::Bibtex(BibtexCmd { bibtex: args[i + 1].clone() });
            cmds.push(cmd);
            proof {
                assert(t.len() >= 2);
                assert(t[1] == args0[i as int + 1]);
                assert(t.skip(2) =~= args0.skip(i as int + 2));
                assert(cmds.deep_view().drop_last() + seq![
                    CommandV::Bibtex(args0[i as int + 1]),
                ] =~= cmds.deep_view());
                if parse_spec(args0.skip(i as int + 2)) is Some {
                    assert((cmds.deep_view().drop_last() + seq![
                        CommandV::Bibtex(args0[i as int + 1]),
                    ] + parse_spec(args0.skip(i as int + 2))->Some_0) =~= (
                    cmds.deep_view() + parse_spec(args0.skip(i as int + 2))->Some_0));
                }
            }
            i = i + 2;
        } else if str_eq(head.as_str(), "bibtex-stdin") {
            let cmd = Command::BibtexStdin;
            cmds.push(cmd);
            proof {
                assert(t.skip(1) =~= args0.skip(i as int + 1));
                assert(cmds.deep_view().drop_last() + seq![CommandV::BibtexStdin]
                    =~= cmds.deep_view());
                if parse_spec(args0.skip(i as int + 1)) is Some {
                    assert((cmds.deep_view().drop_last() + seq![CommandV::BibtexStdin]
                        + parse_spec(args0.skip(i as int + 1))->Some_0) =~= (cmds.deep_view()
                        + parse_spec(args0.skip(i as int + 1))->Some_0));
                }
            }
            i = i + 1;
        } else {
            proof {
                assert(parse_spec(t) is None);
            }
            return None;
        }
    }
    proof {
        assert(args0.skip(n as int) =~= Seq::<Seq<char>>::empty());
        assert(cmds.deep_view() + Seq::<CommandV>::empty() =~= cmds.deep_view());
    }
    Some(cmds)
}

} // verus!
