//! The command line and the replies of the exporter service.

use crate::aggregate::framed;
use crate::text::{same_text, texts};
use vstd::prelude::*;
use vstd::string::StringExecFns;

verus! {

/// What the command line asks for.
#[verifier::ext_equal]
pub enum CommandView {
    Help,
    Serve { dir: Seq<char>, listen: Seq<char> },
}

#[derive(Debug, PartialEq, Eq)]
pub enum Command {
    /// To say how the program is used.
    Help,
    /// To export a directory at an address.
    Serve { dir: String, listen: String },
}

impl View for Command {
    type V = CommandView;

    open spec fn view(&self) -> CommandView {
        match self {
            Command::Help => CommandView::Help,
            Command::Serve { dir, listen } => CommandView::Serve { dir: dir@, listen: listen@ },
        }
    }
}

/// What the arguments from number `i` on ask for, given the directory and the
/// address so far; or the words in which they are refused.
pub open spec fn command_from(
    args: Seq<Seq<char>>,
    i: int,
    dir: Option<Seq<char>>,
    listen: Seq<char>,
) -> Result<CommandView, Seq<char>>
    decreases args.len() - i,
{
    if i < 0 || i >= args.len() {
        match dir {
            Some(dir) => Ok(CommandView::Serve { dir, listen }),
            None => Err("missing required --dir PATH"@),
        }
    } else if args[i] == "--dir"@ {
        if i + 1 < args.len() {
            command_from(args, i + 2, Some(args[i + 1]), listen)
        } else {
            command_from(args, i + 1, None, listen)
        }
    } else if args[i] == "--listen"@ {
        if i + 1 < args.len() {
            command_from(args, i + 2, dir, args[i + 1])
        } else {
            command_from(args, i + 1, dir, listen)
        }
    } else if args[i] == "--help"@ || args[i] == "-h"@ {
        Ok(CommandView::Help)
    } else {
        Err("unknown argument: "@ + args[i])
    }
}

/// Reads the command line, the name of the program left out.
pub fn parse_args(args: &Vec<String>) -> (r: Result<Command, String>)
    ensures
        match command_from(texts(args@), 0, None, "127.0.0.1:9464"@) {
            Ok(command) => r is Ok && r.unwrap()@ == command,
            Err(words) => r is Err && r->Err_0@ == words,
        },
{
    let ghost all = texts(args@);
    let ghost whole = command_from(all, 0, None, "127.0.0.1:9464"@);
    let mut dir: Option<String> = None;
    let mut listen: String = "127.0.0.1:9464".to_owned();
    let mut i: usize = 0;
    while i < args.len()
        invariant
            i <= args@.len(),
            all == texts(args@),
            whole == command_from(all, 0, None, "127.0.0.1:9464"@),
            whole == command_from(
                all,
                i as int,
                match dir {
                    Some(dir) => Some(dir@),
                    None => None,
                },
                listen@,
            ),
        decreases args@.len() - i,
    {
        let arg = args[i].as_str();
        assert(all[i as int] == arg@);
        i = i + 1;
        if same_text(arg, "--dir") {
            if i < args.len() {
                assert(all[i as int] == args@[i as int]@);
                dir = Some(args[i].clone());
                i = i + 1;
            } else {
                dir = None;
            }
        } else if same_text(arg, "--listen") {
            if i < args.len() {
                assert(all[i as int] == args@[i as int]@);
                listen = args[i].clone();
                i = i + 1;
            }
        } else if same_text(arg, "--help") || same_text(arg, "-h") {
            return Ok(Command::Help);
        } else {
            let mut words: String = "unknown argument: ".to_owned();
            words.append(arg);
            return Err(words);
        }
    }
    match dir {
        Some(dir) => Ok(Command::Serve { dir, listen }),
        None => Err("missing required --dir PATH".to_owned()),
    }
}

/// The lines that say how the program is used.
pub open spec fn help_lines() -> Seq<Seq<char>> {
    seq![
        "Usage: prometheus-mmap-exporter --dir PATH [--listen ADDR]"@,
        ""@,
        "Options:"@,
        "  --dir PATH       Metrics directory to export"@,
        "  --listen ADDR    Listen address (default: 127.0.0.1:9464)"@,
    ]
}

/// The lines that say how the program is used.
pub fn help() -> (r: Vec<String>)
    ensures
        texts(r@) == help_lines(),
{
    let mut lines: Vec<String> = Vec::new();
    lines.push("Usage: prometheus-mmap-exporter --dir PATH [--listen ADDR]".to_owned());
    lines.push("".to_owned());
    lines.push("Options:".to_owned());
    lines.push("  --dir PATH       Metrics directory to export".to_owned());
    lines.push("  --listen ADDR    Listen address (default: 127.0.0.1:9464)".to_owned());
    assert(texts(lines@) =~= help_lines());
    lines
}

/// What a request for the metrics comes to.
#[derive(Debug)]
pub enum MetricsOutcome {
    /// The metrics as text.
    Rendered(String),
    /// The metrics could not be rendered, for this reason.
    RenderError(String),
    /// The exporter cannot be reached.
    Unavailable,
}

/// A reply: status, content type where one is set, and body.
#[derive(Debug, PartialEq, Eq)]
pub struct Reply {
    pub status: u16,
    pub content_type: Option<String>,
    pub body: String,
}

/// The content type of Prometheus text.
pub open spec fn prometheus_content_type() -> Seq<char> {
    "text/plain; version=0.0.4; charset=utf-8"@
}

/// The reply to a request for the metrics.
pub fn metrics(outcome: MetricsOutcome) -> (r: Reply)
    ensures
        match outcome {
            MetricsOutcome::Rendered(text) => {
                &&& r.status == 200
                &&& r.content_type is Some
                &&& r.content_type.unwrap()@ == prometheus_content_type()
                &&& r.body@ == text@
            },
            MetricsOutcome::RenderError(reason) => {
                &&& r.status == 500
                &&& r.content_type is None
                &&& r.body@ == "render error: "@ + reason@ + "\n"@
            },
            MetricsOutcome::Unavailable => {
                &&& r.status == 500
                &&& r.content_type is None
                &&& r.body@ == "exporter state is unavailable\n"@
            },
        },
{
    match outcome {
        MetricsOutcome::Rendered(text) => Reply {
            status: 200,
            content_type: Some("text/plain; version=0.0.4; charset=utf-8".to_owned()),
            body: text,
        },
        MetricsOutcome::RenderError(reason) => Reply {
            status: 500,
            content_type: None,
            body: framed("render error: ", reason.as_str(), "\n"),
        },
        MetricsOutcome::Unavailable => Reply {
            status: 500,
            content_type: None,
            body: "exporter state is unavailable\n".to_owned(),
        },
    }
}

/// The reply to a request for the state of the service.
pub fn healthz() -> (r: &'static str)
    ensures
        r@ == "ok\n"@,
{
    "ok\n"
}

/// The argument that stands first settles what follows: one that is unknown is refused by
/// its name, and a call for help is answered as such, whatever comes behind.
pub proof fn law_first_argument(
    args: Seq<Seq<char>>,
    i: int,
    dir: Option<Seq<char>>,
    listen: Seq<char>,
)
    requires
        0 <= i < args.len(),
    ensures
        args[i] == "--help"@ || args[i] == "-h"@ ==> command_from(args, i, dir, listen) == Ok::<
            CommandView,
            Seq<char>,
        >(CommandView::Help),
        args[i] != "--help"@ && args[i] != "-h"@ && args[i] != "--dir"@ && args[i] != "--listen"@
            ==> command_from(args, i, dir, listen) == Err::<CommandView, Seq<char>>(
            "unknown argument: "@ + args[i],
        ),
{
    reveal_strlit("--help");
    reveal_strlit("-h");
    reveal_strlit("--dir");
    reveal_strlit("--listen");
    assert("--help"@.len() == 6 && "-h"@.len() == 2 && "--dir"@.len() == 5 && "--listen"@.len()
        == 8);
}

/// Where every argument is followed by its value, the directory is the last one that was
/// given and the address the last one that was given, or the one that is there from the
/// start; without a directory the command line is refused.
pub proof fn law_last_argument_counts(
    args: Seq<Seq<char>>,
    i: int,
    dir: Option<Seq<char>>,
    listen: Seq<char>,
    d: int,
    l: int,
)
    requires
        0 <= i <= args.len(),
        (args.len() - i) % 2 == 0,
        forall|k: int|
            i <= k < args.len() && (k - i) % 2 == 0 ==> #[trigger] args[k] == "--dir"@ || args[k]
                == "--listen"@,
    ensures
        ({
            let is_dir = |k: int| i <= k < args.len() && (k - i) % 2 == 0 && args[k] == "--dir"@;
            let is_listen = |k: int|
                i <= k < args.len() && (k - i) % 2 == 0 && args[k] == "--listen"@;
            let r = command_from(args, i, dir, listen);
            &&& is_dir(d) && (forall|k: int| k > d ==> !#[trigger] is_dir(k)) ==> r is Ok && (
            r->Ok_0 is Serve) && r->Ok_0->dir == args[d + 1]
            &&& (forall|k: int| !#[trigger] is_dir(k)) && dir is None ==> r == Err::<
                CommandView,
                Seq<char>,
            >("missing required --dir PATH"@)
            &&& (forall|k: int| !#[trigger] is_dir(k)) && dir is Some ==> r is Ok && (r->Ok_0
                is Serve) && r->Ok_0->dir == dir.unwrap()
            &&& r is Ok && is_listen(l) && (forall|k: int| k > l ==> !#[trigger] is_listen(k))
                ==> r->Ok_0->listen == args[l + 1]
            &&& r is Ok && (forall|k: int| !#[trigger] is_listen(k)) ==> r->Ok_0->listen == listen
        }),
    decreases args.len() - i,
{
    let is_dir = |k: int| i <= k < args.len() && (k - i) % 2 == 0 && args[k] == "--dir"@;
    let is_listen = |k: int| i <= k < args.len() && (k - i) % 2 == 0 && args[k] == "--listen"@;
    reveal_strlit("--dir");
    reveal_strlit("--listen");
    assert("--dir"@.len() == 5 && "--listen"@.len() == 8);
    if i < args.len() {
        assert((i - i) % 2 == 0);
        let rest_dir = |k: int|
            i + 2 <= k < args.len() && (k - (i + 2)) % 2 == 0 && args[k] == "--dir"@;
        let rest_listen = |k: int|
            i + 2 <= k < args.len() && (k - (i + 2)) % 2 == 0 && args[k] == "--listen"@;
        assert forall|k: int| #[trigger] is_dir(k) <==> (rest_dir(k) || (k == i && args[i]
            == "--dir"@)) by {}
        assert forall|k: int| #[trigger] is_listen(k) <==> (rest_listen(k) || (k == i && args[i]
            == "--listen"@)) by {}
        assert forall|k: int| #[trigger] rest_dir(k) implies is_dir(k) by {}
        assert forall|k: int| #[trigger] rest_listen(k) implies is_listen(k) by {}
        if args[i] == "--dir"@ {
            law_last_argument_counts(args, i + 2, Some(args[i + 1]), listen, d, l);
            assert(is_dir(i));
        } else {
            law_last_argument_counts(args, i + 2, dir, args[i + 1], d, l);
            assert(is_listen(i));
        }
    }
}

/// An argument at the end that lacks its value: no directory is then given, and the
/// address stays.
pub proof fn law_argument_without_value(
    args: Seq<Seq<char>>,
    dir: Option<Seq<char>>,
    listen: Seq<char>,
)
    requires
        args.len() > 0,
    ensures
        args.last() == "--dir"@ ==> command_from(args, args.len() - 1, dir, listen) == Err::<
            CommandView,
            Seq<char>,
        >("missing required --dir PATH"@),
        args.last() == "--listen"@ && dir is Some ==> command_from(
            args,
            args.len() - 1,
            dir,
            listen,
        ) == Ok::<CommandView, Seq<char>>(CommandView::Serve { dir: dir.unwrap(), listen }),
{
    reveal_strlit("--dir");
    reveal_strlit("--listen");
    assert("--dir"@.len() == 5 && "--listen"@.len() == 8);
    reveal_with_fuel(command_from, 2);
}

/// The words of the service.
pub proof fn law_service_words()
    ensures
        help_lines().len() == 5,
        help_lines()[0] == "Usage: prometheus-mmap-exporter --dir PATH [--listen ADDR]"@,
        help_lines()[1] == ""@,
        help_lines()[2] == "Options:"@,
        help_lines()[3] == "  --dir PATH       Metrics directory to export"@,
        help_lines()[4] == "  --listen ADDR    Listen address (default: 127.0.0.1:9464)"@,
        prometheus_content_type() == "text/plain; version=0.0.4; charset=utf-8"@,
{
}

/// What a command says is what its fields hold.
pub proof fn law_command_says_its_fields(dir: String, listen: String)
    ensures
        (Command::Serve { dir, listen })@ == (CommandView::Serve { dir: dir@, listen: listen@ }),
        Command::Help@ == CommandView::Help,
{
}

/// A command line that gives a directory and no address asks for that directory at the
/// local address of the exporter. One that gives both asks for both, in either order.
pub proof fn law_command_line(args: Vec<String>, r: Result<Command, String>)
    requires
        call_ensures(parse_args, (&args,), r),
    ensures
        args@.len() == 0 ==> r is Err && r->Err_0@ == "missing required --dir PATH"@,
        args@.len() == 2 && args@[0]@ == "--dir"@ ==> r is Ok && r->Ok_0@ == (CommandView::Serve {
            dir: args@[1]@,
            listen: "127.0.0.1:9464"@,
        }),
        args@.len() == 4 && args@[0]@ == "--dir"@ && args@[2]@ == "--listen"@ ==> r is Ok
            && r->Ok_0@ == (CommandView::Serve { dir: args@[1]@, listen: args@[3]@ }),
        args@.len() == 4 && args@[0]@ == "--listen"@ && args@[2]@ == "--dir"@ ==> r is Ok
            && r->Ok_0@ == (CommandView::Serve { dir: args@[3]@, listen: args@[1]@ }),
{
    reveal_strlit("--dir");
    reveal_strlit("--listen");
    assert("--dir"@.len() == 5 && "--listen"@.len() == 8);
    let all = texts(args@);
    assert(all.len() == args@.len());
    assert(forall|i: int| 0 <= i < all.len() ==> #[trigger] all[i] == args@[i]@);
    reveal_with_fuel(command_from, 3);
}

/// A reply has status 200 and the content type of Prometheus text exactly if the metrics
/// were rendered, and then it is their text. Every other has status 500 and says why on one
/// line.
pub proof fn law_metrics_reply(outcome: MetricsOutcome, r: Reply)
    requires
        call_ensures(metrics, (outcome,), r),
    ensures
        r.status == 200 || r.status == 500,
        r.status == 200 <==> outcome is Rendered,
        r.content_type is Some <==> outcome is Rendered,
        r.content_type is Some ==> r.content_type.unwrap()@
            == "text/plain; version=0.0.4; charset=utf-8"@,
        outcome matches MetricsOutcome::Rendered(text) ==> r.body@ == text@,
        outcome matches MetricsOutcome::RenderError(reason) ==> r.body@ == "render error: "@
            + reason@ + "\n"@,
        outcome is Unavailable ==> r.body@ == "exporter state is unavailable\n"@,
{
}

} // verus!
