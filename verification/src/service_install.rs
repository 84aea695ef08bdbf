//! The node as a service of the operating system: what is installed, and which
//! ports are open while it runs.

use vstd::prelude::*;

use crate::addr;
use crate::addr::decimal_text;
use crate::platform::{
    push_arg, push_command, tool_command, CommandView, PortProto, PortRule, ToolCommand,
};
use crate::platform;
use crate::runtime;
use crate::runtime::has_head;
use crate::text;
use crate::text::{chars_of, contains_char, join, owned, same_text, split_words, string_of};

verus! {

/// The name of the service on Linux.
pub const LINUX_SERVICE_NAME: &'static str = "starskiff";

/// The name of the service on Windows.
pub const WINDOWS_SERVICE_NAME: &'static str = "Starskiff";

/// The name of the service: the one that was asked for, or the usual one.
pub fn service_name(explicit: Option<&str>, usual: &str) -> (name: String)
    ensures
        name@ == (match explicit {
            Some(n) => n@,
            None => usual@,
        }),
{
    match explicit {
        Some(n) => owned(n),
        None => owned(usual),
    }
}

/// The file that describes the service to systemd.
pub fn unit_path(name: &str) -> (path: String)
    ensures
        path@ == "/etc/systemd/system/"@ + name@ + ".service"@,
{
    let head = join("/etc/systemd/system/", name);
    join(head.as_str(), ".service")
}

/// Lines, each with its end.
pub open spec fn lines_text(lines: Seq<Seq<char>>) -> Seq<char>
    decreases lines.len(),
{
    if lines.len() == 0 {
        Seq::empty()
    } else {
        lines_text(lines.drop_last()) + lines.last().push('\n')
    }
}

/// What stands between the ends of lines; the last is behind the last of them.
pub open spec fn split_lines(s: Seq<char>) -> Seq<Seq<char>>
    decreases s.len(),
{
    if s.len() == 0 {
        seq![Seq::empty()]
    } else {
        let before = split_lines(s.drop_last());
        if s.last() == '\n' {
            before.push(Seq::empty())
        } else {
            before.drop_last().push(before.last().push(s.last()))
        }
    }
}

proof fn lemma_split_some(s: Seq<char>)
    ensures
        split_lines(s).len() > 0,
    decreases s.len(),
{
    if s.len() > 0 {
        lemma_split_some(s.drop_last());
    }
}

proof fn lemma_split_within(s: Seq<char>, t: Seq<char>)
    requires
        !t.contains('\n'),
    ensures
        split_lines(s + t) == split_lines(s).drop_last().push(split_lines(s).last() + t),
    decreases t.len(),
{
    lemma_split_some(s);
    let parts = split_lines(s);
    if t.len() == 0 {
        assert(s + t =~= s);
        assert(parts.last() + t =~= parts.last());
        assert(parts.drop_last().push(parts.last()) =~= parts);
    } else {
        let u = t.drop_last();
        assert forall|i: int| 0 <= i < u.len() implies u[i] != '\n' by {
            assert(t[i] == u[i]);
            assert(t.contains(t[i]));
        }
        lemma_split_within(s, u);
        assert((s + t).drop_last() =~= s + u);
        assert(t.contains(t[t.len() - 1]));
        assert((s + t).last() == t.last());
        assert(parts.last() + t =~= (parts.last() + u).push(t.last()));
        assert(split_lines(s + u).drop_last() =~= parts.drop_last());
        assert(split_lines(s + t) =~= parts.drop_last().push(parts.last() + t));
    }
}

/// Lines are found again, with nothing behind the last.
pub proof fn lemma_lines_round_trip(lines: Seq<Seq<char>>)
    requires
        forall|i: int| 0 <= i < lines.len() ==> !(#[trigger] lines[i]).contains('\n'),
    ensures
        split_lines(lines_text(lines)) == lines.push(Seq::empty()),
    decreases lines.len(),
{
    if lines.len() == 0 {
        assert(split_lines(lines_text(lines)) =~= lines.push(Seq::empty()));
    } else {
        let front = lines.drop_last();
        assert forall|i: int| 0 <= i < front.len() implies !(#[trigger] front[i]).contains('\n') by {
            assert(lines[i] == front[i]);
        }
        lemma_lines_round_trip(front);
        let a = lines_text(front);
        let line = lines.last();
        assert(!lines[lines.len() - 1].contains('\n'));
        lemma_split_within(a, line);
        let s = lines_text(lines);
        assert(s =~= a + line.push('\n'));
        assert(s.drop_last() =~= a + line);
        assert(s.last() == '\n');
        assert(Seq::<char>::empty() + line =~= line);
        assert(split_lines(a + line) =~= front.push(line));
        assert(front.push(line) =~= lines);
    }
}

fn lines_of(s: &str) -> (lines: Vec<String>)
    ensures
        text::texts(lines@) == split_lines(s@),
{
    let chars = chars_of(s);
    let mut lines: Vec<String> = Vec::new();
    let mut line: String = String::new();
    let mut i: usize = 0;
    assert(text::texts(lines@).push(line@) =~= split_lines(chars@.take(0)));
    while i < chars.len()
        invariant
            i <= chars@.len(),
            chars@ == s@,
            text::texts(lines@).push(line@) == split_lines(chars@.take(i as int)),
        decreases chars@.len() - i,
    {
        let c = chars[i];
        let ghost now = chars@.take(i + 1);
        let ghost lines0 = text::texts(lines@);
        let ghost line0 = line@;
        assert(now.drop_last() =~= chars@.take(i as int));
        assert(now.last() == c);
        assert(lines0.push(line0).drop_last() =~= lines0);
        if c == '\n' {
            lines.push(line);
            line = String::new();
            assert(text::texts(lines@) =~= lines0.push(line0));
            assert(line@ =~= Seq::empty());
        } else {
            line.push(c);
        }
        i += 1;
    }
    assert(chars@.take(i as int) =~= s@);
    let ghost lines0 = text::texts(lines@);
    let ghost line0 = line@;
    lines.push(line);
    assert(text::texts(lines@) =~= lines0.push(line0));
    lines
}

/// What the service runs.
pub open spec fn run_line(exe: Seq<char>, config: Seq<char>, log_file: Option<Seq<char>>) -> Seq<char> {
    exe + " service run -c "@ + config + (match log_file {
        Some(f) => " --log-file "@ + f,
        None => Seq::empty(),
    })
}

/// The line that says what the service runs.
pub open spec fn exec_line(exe: Seq<char>, config: Seq<char>, log_file: Option<Seq<char>>) -> Seq<char> {
    "ExecStart="@ + run_line(exe, config, log_file)
}

/// The lines that describe the service to systemd.
pub open spec fn unit_lines(
    exe: Seq<char>,
    config: Seq<char>,
    log_file: Option<Seq<char>>,
    no_restart: bool,
) -> Seq<Seq<char>> {
    seq![
        "[Unit]"@,
        "Description=Starskiff mesh VPN node"@,
        "After=network-online.target"@,
        "Wants=network-online.target"@,
        Seq::empty(),
        "[Service]"@,
        "Type=simple"@,
        exec_line(exe, config, log_file),
        if no_restart {
            "Restart=no"@
        } else {
            "Restart=always"@
        },
        "RestartSec=5"@,
        Seq::empty(),
        "[Install]"@,
        "WantedBy=multi-user.target"@,
    ]
}

fn write_lines(lines: &Vec<String>) -> (text: String)
    ensures
        text@ == lines_text(text::texts(lines@)),
{
    let ghost all = text::texts(lines@);
    let mut out = String::new();
    let mut i: usize = 0;
    assert(out@ =~= lines_text(all.take(0)));
    while i < lines.len()
        invariant
            i <= lines@.len(),
            all == text::texts(lines@),
            out@ == lines_text(all.take(i as int)),
        decreases lines@.len() - i,
    {
        let ghost before = out@;
        assert(all.take(i + 1).drop_last() =~= all.take(i as int));
        assert(all.take(i + 1).last() == lines@[i as int]@);
        out.append(lines[i].as_str());
        out.push('\n');
        assert(out@ =~= before + lines@[i as int]@.push('\n'));
        i += 1;
    }
    assert(all.take(i as int) =~= all);
    out
}

/// A text that may be absent, by its characters.
pub open spec fn str_view(text: Option<&str>) -> Option<Seq<char>> {
    match text {
        Some(t) => Some(t@),
        None => None,
    }
}

/// The description of the service for systemd.
pub fn unit_text(exe: &str, config: &str, log_file: Option<&str>, no_restart: bool) -> (unit: String)
    ensures
        unit@ == lines_text(unit_lines(exe@, config@, str_view(log_file), no_restart)),
{
    let ghost all = unit_lines(exe@, config@, str_view(log_file), no_restart);
    let mut run = owned(exe);
    run.append(" service run -c ");
    run.append(config);
    match log_file {
        Some(f) => {
            let tail = join(" --log-file ", f);
            run.append(tail.as_str());
        },
        None => {
            assert(run@ + Seq::<char>::empty() =~= run@);
        },
    }
    let exec = join("ExecStart=", run.as_str());
    assert(exec@ =~= exec_line(exe@, config@, str_view(log_file)));
    let restart = if no_restart {
        "Restart=no"
    } else {
        "Restart=always"
    };
    proof {
        reveal_strlit("");
        assert(""@ =~= Seq::<char>::empty());
    }
    let mut lines: Vec<String> = Vec::new();
    push_arg(&mut lines, "[Unit]");
    push_arg(&mut lines, "Description=Starskiff mesh VPN node");
    push_arg(&mut lines, "After=network-online.target");
    push_arg(&mut lines, "Wants=network-online.target");
    push_arg(&mut lines, "");
    push_arg(&mut lines, "[Service]");
    push_arg(&mut lines, "Type=simple");
    push_arg(&mut lines, exec.as_str());
    push_arg(&mut lines, restart);
    push_arg(&mut lines, "RestartSec=5");
    push_arg(&mut lines, "");
    push_arg(&mut lines, "[Install]");
    push_arg(&mut lines, "WantedBy=multi-user.target");
    assert(text::texts(lines@) =~= all);
    write_lines(&lines)
}

/// What the first line that begins with `head` has behind it.
pub open spec fn line_behind(lines: Seq<Seq<char>>, head: Seq<char>) -> Option<Seq<char>>
    decreases lines.len(),
{
    if lines.len() == 0 {
        None
    } else if runtime::starts_with(lines[0], head) {
        Some(lines[0].skip(head.len() as int))
    } else {
        line_behind(lines.skip(1), head)
    }
}

/// The word behind the first `-c`.
pub open spec fn config_word(words: Seq<Seq<char>>) -> Option<Seq<char>>
    decreases words.len(),
{
    if words.len() == 0 {
        None
    } else if words[0] == "-c"@ {
        if words.len() > 1 {
            Some(words[1])
        } else {
            None
        }
    } else {
        config_word(words.skip(1))
    }
}

/// The configuration file that a description of the service names.
pub open spec fn unit_config(unit: Seq<char>) -> Option<Seq<char>> {
    match line_behind(split_lines(unit), "ExecStart="@) {
        Some(run) => config_word(text::words(run)),
        None => None,
    }
}

/// The configuration file that a description of the service names.
pub fn config_in_unit(unit: &str) -> (config: Option<String>)
    ensures
        match config {
            Some(c) => unit_config(unit@) == Some(c@),
            None => unit_config(unit@) is None,
        },
{
    let lines = lines_of(unit);
    let ghost all = text::texts(lines@);
    let mut i: usize = 0;
    assert(all.skip(0) =~= all);
    while i < lines.len()
        invariant
            i <= lines@.len(),
            all == text::texts(lines@),
            all == split_lines(unit@),
            line_behind(all.skip(i as int), "ExecStart="@) == line_behind(all, "ExecStart="@),
        decreases lines@.len() - i,
    {
        assert(all.skip(i as int)[0] == lines@[i as int]@);
        assert(all.skip(i as int).skip(1) =~= all.skip(i + 1));
        if has_head(lines[i].as_str(), "ExecStart=") {
            let chars = chars_of(lines[i].as_str());
            proof {
                reveal_strlit("ExecStart=");
            }
            let run = string_of(chars.as_slice(), 10, chars.len());
            assert(run@ =~= lines@[i as int]@.skip(10));
            return find_config(split_words(run.as_str()));
        }
        i += 1;
    }
    None
}

fn find_config(words: Vec<String>) -> (config: Option<String>)
    ensures
        match config {
            Some(c) => config_word(text::texts(words@)) == Some(c@),
            None => config_word(text::texts(words@)) is None,
        },
{
    let ghost all = text::texts(words@);
    let mut i: usize = 0;
    assert(all.skip(0) =~= all);
    while i < words.len()
        invariant
            i <= words@.len(),
            all == text::texts(words@),
            config_word(all.skip(i as int)) == config_word(all),
        decreases words@.len() - i,
    {
        assert(all.skip(i as int)[0] == words@[i as int]@);
        assert(all.skip(i as int).skip(1) =~= all.skip(i + 1));
        if same_text(words[i].as_str(), "-c") {
            if i + 1 < words.len() {
                assert(all.skip(i as int)[1] == words@[i + 1]@);
                return Some(words[i + 1].clone());
            }
            return None;
        }
        i += 1;
    }
    None
}

/// A path that systemd takes as one word.
pub open spec fn is_plain(path: Seq<char>) -> bool {
    path.len() > 0 && forall|i: int| 0 <= i < path.len() ==> !text::is_white_space(#[trigger] path[i])
}

proof fn lemma_run_is_one_line(exe: Seq<char>, config: Seq<char>, log_file: Option<Seq<char>>)
    requires
        is_plain(exe),
        is_plain(config),
        log_file is Some ==> is_plain(log_file->0),
    ensures
        !exec_line(exe, config, log_file).contains('\n'),
{
    reveal_strlit("ExecStart=");
    reveal_strlit(" service run -c ");
    reveal_strlit(" --log-file ");
    let run = run_line(exe, config, log_file);
    let tail = match log_file {
        Some(f) => " --log-file "@ + f,
        None => Seq::<char>::empty(),
    };
    let line = exec_line(exe, config, log_file);
    assert(text::is_white_space('\n'));
    assert forall|i: int| 0 <= i < run.len() implies run[i] != '\n' by {
        if i < exe.len() {
            assert(run[i] == exe[i]);
        } else if i < exe.len() + 16 {
            assert(run[i] == " service run -c "@[i - exe.len()]);
        } else if i < exe.len() + 16 + config.len() {
            assert(run[i] == config[i - exe.len() - 16]);
        } else {
            assert(run[i] == tail[i - exe.len() - 16 - config.len()]);
            if i >= exe.len() + 16 + config.len() + 12 {
                assert(run[i] == log_file->0[i - exe.len() - 16 - config.len() - 12]);
            }
        }
    }
    assert forall|i: int| 0 <= i < line.len() implies line[i] != '\n' by {
        if i < 10 {
            assert(line[i] == "ExecStart="@[i]);
        } else {
            assert(line[i] == run[i - 10]);
        }
    }
}

proof fn lemma_fixed_lines()
    ensures
        !"[Unit]"@.contains('\n'),
        !"Description=Starskiff mesh VPN node"@.contains('\n'),
        !"After=network-online.target"@.contains('\n'),
        !"Wants=network-online.target"@.contains('\n'),
        !"[Service]"@.contains('\n'),
        !"Type=simple"@.contains('\n'),
        !"Restart=no"@.contains('\n'),
        !"Restart=always"@.contains('\n'),
        !"RestartSec=5"@.contains('\n'),
        !"[Install]"@.contains('\n'),
        !"WantedBy=multi-user.target"@.contains('\n'),
{
    reveal_strlit("[Unit]");
    reveal_strlit("Description=Starskiff mesh VPN node");
    reveal_strlit("After=network-online.target");
    reveal_strlit("Wants=network-online.target");
    reveal_strlit("[Service]");
    reveal_strlit("Type=simple");
    reveal_strlit("Restart=no");
    reveal_strlit("Restart=always");
    reveal_strlit("RestartSec=5");
    reveal_strlit("[Install]");
    reveal_strlit("WantedBy=multi-user.target");
}

/// A text that begins otherwise does not begin with `head`.
proof fn lemma_other_head(line: Seq<char>, head: Seq<char>)
    requires
        head.len() > 0,
        line.len() > 0 ==> line[0] != head[0],
    ensures
        !runtime::starts_with(line, head),
{
    if line.len() >= head.len() {
        assert(line.take(head.len() as int)[0] == line[0]);
    }
}

proof fn lemma_first_lines_are_others()
    ensures
        !runtime::starts_with("[Unit]"@, "ExecStart="@),
        !runtime::starts_with("Description=Starskiff mesh VPN node"@, "ExecStart="@),
        !runtime::starts_with("After=network-online.target"@, "ExecStart="@),
        !runtime::starts_with("Wants=network-online.target"@, "ExecStart="@),
        !runtime::starts_with(Seq::<char>::empty(), "ExecStart="@),
        !runtime::starts_with("[Service]"@, "ExecStart="@),
        !runtime::starts_with("Type=simple"@, "ExecStart="@),
{
    reveal_strlit("ExecStart=");
    reveal_strlit("[Unit]");
    reveal_strlit("Description=Starskiff mesh VPN node");
    reveal_strlit("After=network-online.target");
    reveal_strlit("Wants=network-online.target");
    reveal_strlit("[Service]");
    reveal_strlit("Type=simple");
    lemma_other_head("[Unit]"@, "ExecStart="@);
    lemma_other_head("Description=Starskiff mesh VPN node"@, "ExecStart="@);
    lemma_other_head("After=network-online.target"@, "ExecStart="@);
    lemma_other_head("Wants=network-online.target"@, "ExecStart="@);
    lemma_other_head("[Service]"@, "ExecStart="@);
    lemma_other_head("Type=simple"@, "ExecStart="@);
}

proof fn lemma_run_is_found(
    exe: Seq<char>,
    config: Seq<char>,
    log_file: Option<Seq<char>>,
    no_restart: bool,
)
    requires
        is_plain(exe),
        is_plain(config),
        log_file is Some ==> is_plain(log_file->0),
    ensures
        line_behind(
            split_lines(lines_text(unit_lines(exe, config, log_file, no_restart))),
            "ExecStart="@,
        ) == Some(run_line(exe, config, log_file)),
{
    let lines = unit_lines(exe, config, log_file, no_restart);
    let head = "ExecStart="@;
    let run = run_line(exe, config, log_file);
    lemma_run_is_one_line(exe, config, log_file);
    lemma_fixed_lines();
    lemma_first_lines_are_others();
    assert(!Seq::<char>::empty().contains('\n'));
    lemma_lines_round_trip(lines);
    let parts = lines.push(Seq::empty());
    assert forall|i: int| 0 <= i < 7 implies !runtime::starts_with(#[trigger] parts[i], head) by {
        assert(parts[i] == lines[i]);
    }
    assert(parts[7] == head + run);
    assert((head + run).take(head.len() as int) =~= head);
    assert((head + run).skip(head.len() as int) =~= run);
    lemma_line_behind(parts, head, 7);
}

proof fn lemma_run_words(exe: Seq<char>, config: Seq<char>, log_file: Option<Seq<char>>)
    requires
        is_plain(exe),
        is_plain(config),
        exe != "-c"@,
    ensures
        config_word(text::words(run_line(exe, config, log_file))) == Some(config),
{
    reveal_strlit(" service run -c ");
    reveal_strlit(" --log-file ");
    reveal_strlit("-c");
    let tail = match log_file {
        Some(f) => " --log-file "@ + f,
        None => Seq::<char>::empty(),
    };
    let run = run_line(exe, config, log_file);
    assert(text::is_white_space(' '));
    let b = run.skip(exe.len() as int + 1);
    assert(run =~= exe.push(' ') + b);
    text::lemma_words_apart(exe, ' ', b);
    text::lemma_one_word(exe);
    let w1 = seq!['s', 'e', 'r', 'v', 'i', 'c', 'e'];
    let c = b.skip(8);
    assert(b =~= w1.push(' ') + c);
    text::lemma_words_apart(w1, ' ', c);
    text::lemma_one_word(w1);
    let w2 = seq!['r', 'u', 'n'];
    let d = c.skip(4);
    assert(c =~= w2.push(' ') + d);
    text::lemma_words_apart(w2, ' ', d);
    text::lemma_one_word(w2);
    let w3 = seq!['-', 'c'];
    let e = d.skip(3);
    assert(d =~= w3.push(' ') + e);
    text::lemma_words_apart(w3, ' ', e);
    text::lemma_one_word(w3);
    assert(w3 =~= "-c"@);
    assert(e =~= config + tail);
    text::lemma_one_word(config);
    match log_file {
        Some(f) => {
            let g = e.skip(config.len() as int + 1);
            assert(e =~= config.push(' ') + g);
            text::lemma_words_apart(config, ' ', g);
        },
        None => {
            assert(e =~= config);
        },
    }
    assert(text::words(e).len() > 0 && text::words(e)[0] == config);
    let ws = text::words(run);
    assert(ws =~= seq![exe] + (seq![w1] + (seq![w2] + (seq![w3] + text::words(e)))));
    assert(w1.len() != "-c"@.len());
    assert(w2.len() != "-c"@.len());
    lemma_config_word(ws, 3);
}

proof fn lemma_config_word(words: Seq<Seq<char>>, k: int)
    requires
        0 <= k < words.len() - 1,
        forall|i: int| 0 <= i < k ==> #[trigger] words[i] != "-c"@,
        words[k] == "-c"@,
    ensures
        config_word(words) == Some(words[k + 1]),
    decreases k,
{
    if k > 0 {
        assert(words[0] != "-c"@);
        let rest = words.skip(1);
        assert forall|i: int| 0 <= i < k - 1 implies #[trigger] rest[i] != "-c"@ by {
            assert(rest[i] == words[i + 1]);
        }
        lemma_config_word(rest, k - 1);
    }
}

/// The configuration file is found again in the description of the service that
/// was written with it.
pub proof fn lemma_unit_names_its_config(
    exe: Seq<char>,
    config: Seq<char>,
    log_file: Option<Seq<char>>,
    no_restart: bool,
)
    requires
        is_plain(exe),
        is_plain(config),
        log_file is Some ==> is_plain(log_file->0),
        exe != "-c"@,
    ensures
        unit_config(lines_text(unit_lines(exe, config, log_file, no_restart))) == Some(config),
{
    lemma_run_is_found(exe, config, log_file, no_restart);
    lemma_run_words(exe, config, log_file);
}

proof fn lemma_line_behind(lines: Seq<Seq<char>>, head: Seq<char>, k: int)
    requires
        0 <= k < lines.len(),
        forall|i: int| 0 <= i < k ==> !runtime::starts_with(#[trigger] lines[i], head),
        runtime::starts_with(lines[k], head),
    ensures
        line_behind(lines, head) == Some(lines[k].skip(head.len() as int)),
    decreases k,
{
    if k > 0 {
        assert(!runtime::starts_with(lines[0], head));
        let rest = lines.skip(1);
        assert forall|i: int| 0 <= i < k - 1 implies !runtime::starts_with(#[trigger] rest[i], head) by {
            assert(rest[i] == lines[i + 1]);
        }
        assert(rest[k - 1] == lines[k]);
        lemma_line_behind(rest, head, k - 1);
    }
}

/// The commands that make systemd take up the service.
pub fn linux_install_commands(name: &str) -> (list: Vec<ToolCommand>)
    ensures
        platform::commands_view(list@) == seq![
            CommandView { program: "systemctl"@, args: seq!["daemon-reload"@], fatal: true },
            CommandView { program: "systemctl"@, args: seq!["enable"@, name@], fatal: true },
        ],
{
    let mut list: Vec<ToolCommand> = Vec::new();
    let mut reload: Vec<String> = Vec::new();
    push_arg(&mut reload, "daemon-reload");
    assert(text::texts(reload@) =~= seq!["daemon-reload"@]);
    push_command(&mut list, tool_command("systemctl", reload, true));
    let mut enable: Vec<String> = Vec::new();
    push_arg(&mut enable, "enable");
    push_arg(&mut enable, name);
    assert(text::texts(enable@) =~= seq!["enable"@, name@]);
    push_command(&mut list, tool_command("systemctl", enable, true));
    assert(platform::commands_view(list@) =~= seq![
        CommandView { program: "systemctl"@, args: seq!["daemon-reload"@], fatal: true },
        CommandView { program: "systemctl"@, args: seq!["enable"@, name@], fatal: true },
    ]);
    list
}

/// What a Windows service runs.
pub open spec fn image_path(exe: Seq<char>, config: Seq<char>, log_file: Seq<char>) -> Seq<char> {
    let run = exe + " service run -c "@ + config;
    if log_file.len() == 0 {
        run
    } else {
        run + " --log-file "@ + log_file
    }
}

/// What is wrong with a path: Windows cannot hand over one with a space.
pub open spec fn path_error(label: Seq<char>, path: Seq<char>) -> Option<Seq<char>> {
    if path.contains(' ') {
        Some(
            label + "路径含空格，服务 binPath 无法安全传递（SCM 对 ImagePath 引号的限制）："@ + path
                + "。请移动到无空格路径后重装"@,
        )
    } else {
        None
    }
}

fn check_path(label: &str, path: &str) -> (result: Result<(), String>)
    ensures
        match result {
            Ok(()) => path_error(label@, path@) is None,
            Err(e) => path_error(label@, path@) == Some(e@),
        },
{
    if contains_char(path, ' ') {
        let mut e = join(label, "路径含空格，服务 binPath 无法安全传递（SCM 对 ImagePath 引号的限制）：");
        e.append(path);
        e.append("。请移动到无空格路径后重装");
        return Err(e);
    }
    Ok(())
}

/// How a Windows service starts.
pub open spec fn start_flag(mode: Seq<char>) -> Seq<char> {
    if mode == "delayed"@ {
        "delayed-auto"@
    } else if mode == "demand"@ {
        "demand"@
    } else {
        "auto"@
    }
}

/// The commands that install a Windows service. The command line is put into the
/// registry: a service that is made with a long one does not start.
pub open spec fn windows_plan(
    name: Seq<char>,
    exe: Seq<char>,
    config: Seq<char>,
    log_file: Seq<char>,
    start_mode: Seq<char>,
    display: Seq<char>,
    no_restart: bool,
) -> Seq<CommandView> {
    let base = seq![
        CommandView {
            program: "sc"@,
            args: seq!["create"@, name, "binpath= "@ + exe, "start="@, start_flag(start_mode)],
            fatal: true,
        },
        CommandView {
            program: "reg"@,
            args: seq![
                "add"@,
                "HKLM\\SYSTEM\\CurrentControlSet\\Services\\"@ + name,
                "/v"@,
                "ImagePath"@,
                "/t"@,
                "REG_EXPAND_SZ"@,
                "/d"@,
                image_path(exe, config, log_file),
                "/f"@,
            ],
            fatal: true,
        },
        CommandView {
            program: "sc"@,
            args: seq!["description"@, name, "Starskiff mesh VPN node ("@ + display + ")"@],
            fatal: false,
        },
    ];
    if no_restart {
        base
    } else {
        base.push(
            CommandView {
                program: "sc"@,
                args: seq![
                    "failure"@,
                    name,
                    "reset="@,
                    "86400"@,
                    "actions="@,
                    "restart/5000/restart/5000/restart/30000"@,
                ],
                fatal: false,
            },
        )
    }
}

/// The commands that install a Windows service.
pub fn windows_install_commands(
    name: &str,
    exe: &str,
    config: &str,
    log_file: Option<&str>,
    start_mode: &str,
    display: Option<&str>,
    no_restart: bool,
) -> (plan: Result<Vec<ToolCommand>, String>)
    ensures
        ({
            let log = match log_file {
                Some(f) => f@,
                None => Seq::empty(),
            };
            let shown = match display {
                Some(d) => d@,
                None => name@,
            };
            match plan {
                Ok(list) => {
                    &&& path_error("程序"@, exe@) is None
                    &&& path_error("配置"@, config@) is None
                    &&& path_error("日志"@, log) is None
                    &&& platform::commands_view(list@) == windows_plan(
                        name@,
                        exe@,
                        config@,
                        log,
                        start_mode@,
                        shown,
                        no_restart,
                    )
                },
                Err(e) => if path_error("程序"@, exe@) is Some {
                    path_error("程序"@, exe@) == Some(e@)
                } else if path_error("配置"@, config@) is Some {
                    path_error("配置"@, config@) == Some(e@)
                } else {
                    path_error("日志"@, log) == Some(e@)
                },
            }
        }),
{
    let log = match log_file {
        Some(f) => owned(f),
        None => String::new(),
    };
    assert(log@ =~= (match log_file {
        Some(f) => f@,
        None => Seq::empty(),
    }));
    if let Err(e) = check_path("程序", exe) {
        return Err(e);
    }
    if let Err(e) = check_path("配置", config) {
        return Err(e);
    }
    if let Err(e) = check_path("日志", log.as_str()) {
        return Err(e);
    }
    let mut run = owned(exe);
    run.append(" service run -c ");
    run.append(config);
    if !log.as_str().is_empty() {
        run.append(" --log-file ");
        run.append(log.as_str());
    }
    let flag = if same_text(start_mode, "delayed") {
        "delayed-auto"
    } else if same_text(start_mode, "demand") {
        "demand"
    } else {
        "auto"
    };
    let shown = match display {
        Some(d) => d,
        None => name,
    };
    let ghost want = windows_plan(name@, exe@, config@, log@, start_mode@, shown@, no_restart);
    let mut list: Vec<ToolCommand> = Vec::new();

    let mut create: Vec<String> = Vec::new();
    push_arg(&mut create, "create");
    push_arg(&mut create, name);
    push_arg(&mut create, join("binpath= ", exe).as_str());
    push_arg(&mut create, "start=");
    push_arg(&mut create, flag);
    assert(text::texts(create@) =~= want[0].args);
    push_command(&mut list, tool_command("sc", create, true));

    let mut image: Vec<String> = Vec::new();
    push_arg(&mut image, "add");
    push_arg(&mut image, join("HKLM\\SYSTEM\\CurrentControlSet\\Services\\", name).as_str());
    push_arg(&mut image, "/v");
    push_arg(&mut image, "ImagePath");
    push_arg(&mut image, "/t");
    push_arg(&mut image, "REG_EXPAND_SZ");
    push_arg(&mut image, "/d");
    push_arg(&mut image, run.as_str());
    push_arg(&mut image, "/f");
    assert(text::texts(image@) =~= want[1].args);
    push_command(&mut list, tool_command("reg", image, true));

    let mut about: Vec<String> = Vec::new();
    push_arg(&mut about, "description");
    push_arg(&mut about, name);
    let mut line = join("Starskiff mesh VPN node (", shown);
    line.append(")");
    push_arg(&mut about, line.as_str());
    assert(text::texts(about@) =~= want[2].args);
    push_command(&mut list, tool_command("sc", about, false));

    if !no_restart {
        let mut failure: Vec<String> = Vec::new();
        push_arg(&mut failure, "failure");
        push_arg(&mut failure, name);
        push_arg(&mut failure, "reset=");
        push_arg(&mut failure, "86400");
        push_arg(&mut failure, "actions=");
        push_arg(&mut failure, "restart/5000/restart/5000/restart/30000");
        assert(text::texts(failure@) =~= want[3].args);
        push_command(&mut list, tool_command("sc", failure, false));
    }
    assert(platform::commands_view(list@) =~= want);
    Ok(list)
}

/// Ascending, each number once.
pub open spec fn strictly_ascending(ports: Seq<u16>) -> bool {
    forall|i: int, j: int| 0 <= i < j < ports.len() ==> #[trigger] ports[i] < #[trigger] ports[j]
}

/// The ports in a list, in order and each once. Zero is no port.
pub fn dedup_ports(ports: &[u16]) -> (list: Vec<u16>)
    ensures
        strictly_ascending(list@),
        forall|p: u16| #[trigger] list@.contains(p) <==> p != 0 && ports@.contains(p),
{
    let mut list: Vec<u16> = Vec::new();
    let mut i: usize = 0;
    while i < ports.len()
        invariant
            i <= ports@.len(),
            strictly_ascending(list@),
            forall|p: u16| #[trigger]
                list@.contains(p) <==> p != 0 && ports@.take(i as int).contains(p),
        decreases ports@.len() - i,
    {
        let port: u16 = ports[i];
        let ghost before = list@;
        let ghost seen = ports@.take(i as int);
        if port != 0 {
            insert_port(&mut list, port);
        }
        assert forall|p: u16| #[trigger] list@.contains(p) <==> p != 0 && ports@.take(
            i + 1,
        ).contains(p) by {
            let now = ports@.take(i + 1);
            if seen.contains(p) {
                let k = choose|k: int| 0 <= k < seen.len() && seen[k] == p;
                assert(now[k] == p);
            }
            if p == port {
                assert(now[i as int] == p);
            }
            if now.contains(p) {
                let k = choose|k: int| 0 <= k < now.len() && now[k] == p;
                if k < i {
                    assert(seen[k] == p);
                }
            }
            assert(before.contains(p) == before.contains(p));
        }
        i += 1;
    }
    assert(ports@.take(i as int) =~= ports@);
    list
}

fn insert_port(list: &mut Vec<u16>, port: u16)
    requires
        strictly_ascending(old(list)@),
    ensures
        strictly_ascending(final(list)@),
        forall|p: u16| #[trigger]
            final(list)@.contains(p) <==> old(list)@.contains(p) || p == port,
{
    let ghost before = list@;
    let mut at: usize = 0;
    while at < list.len() && list[at] < port
        invariant
            at <= list@.len(),
            list@ == before,
            forall|j: int| 0 <= j < at ==> #[trigger] before[j] < port,
        decreases list@.len() - at,
    {
        at += 1;
    }
    if at < list.len() && list[at] == port {
        assert(before[at as int] == port);
        return;
    }
    list.insert(at, port);
    let ghost after = list@;
    proof {
        assert(after =~= before.insert(at as int, port));
        assert forall|i: int, j: int| 0 <= i < j < after.len() implies #[trigger] after[i]
            < #[trigger] after[j] by {
            if i < at {
                assert(after[i] == before[i]);
            } else if i > at {
                assert(after[i] == before[i - 1]);
            }
            if j < at {
                assert(after[j] == before[j]);
            } else if j > at {
                assert(after[j] == before[j - 1]);
                if i <= at {
                    assert(before[at as int] <= before[j - 1]);
                }
            }
        }
        assert forall|p: u16| #[trigger] after.contains(p) <==> before.contains(p) || p == port by {
            if before.contains(p) {
                let k = choose|k: int| 0 <= k < before.len() && before[k] == p;
                if k < at {
                    assert(after[k] == p);
                } else {
                    assert(after[k + 1] == p);
                }
            }
            if p == port {
                assert(after[at as int] == p);
            }
            if after.contains(p) {
                let k = choose|k: int| 0 <= k < after.len() && after[k] == p;
                if k < at {
                    assert(before[k] == p);
                } else if k > at {
                    assert(before[k - 1] == p);
                }
            }
        }
    }
}

/// The ports that were opened. What is not here was not opened by the node.
#[derive(Debug, Default)]
pub struct FirewallState {
    pub udp: Vec<u16>,
    pub tcp: Vec<u16>,
}

/// Ports of one protocol.
pub open spec fn rules_for(ports: Seq<u16>, proto: PortProto) -> Seq<PortRule> {
    ports.map_values(|port: u16| PortRule { port, proto })
}

/// The ports of one list that another lacks.
pub open spec fn missing(ports: Seq<u16>, others: Seq<u16>) -> Seq<u16>
    decreases ports.len(),
{
    if ports.len() == 0 {
        Seq::empty()
    } else if others.contains(ports.last()) {
        missing(ports.drop_last(), others)
    } else {
        missing(ports.drop_last(), others).push(ports.last())
    }
}

fn has_port(list: &Vec<u16>, port: u16) -> (found: bool)
    ensures
        found == list@.contains(port),
{
    let mut i: usize = 0;
    while i < list.len()
        invariant
            i <= list@.len(),
            forall|j: int| 0 <= j < i ==> list@[j] != port,
        decreases list@.len() - i,
    {
        if list[i] == port {
            assert(list@[i as int] == port);
            return true;
        }
        i += 1;
    }
    false
}

fn push_missing(out: &mut Vec<PortRule>, ports: &Vec<u16>, others: &Vec<u16>, proto: PortProto)
    ensures
        final(out)@ == old(out)@ + rules_for(missing(ports@, others@), proto),
{
    let ghost before = out@;
    let mut i: usize = 0;
    assert(out@ =~= before + rules_for(missing(ports@.take(0), others@), proto));
    while i < ports.len()
        invariant
            i <= ports@.len(),
            out@ == before + rules_for(missing(ports@.take(i as int), others@), proto),
        decreases ports@.len() - i,
    {
        let port: u16 = ports[i];
        let ghost list = missing(ports@.take(i as int), others@);
        assert(ports@.take(i + 1).drop_last() =~= ports@.take(i as int));
        assert(ports@.take(i + 1).last() == port);
        if !has_port(others, port) {
            out.push(PortRule { port, proto });
            assert(rules_for(list.push(port), proto) =~= rules_for(list, proto).push(
                PortRule { port, proto },
            ));
            assert(out@ =~= before + rules_for(list.push(port), proto));
        }
        i += 1;
    }
    assert(ports@.take(i as int) =~= ports@);
}

fn push_all(out: &mut Vec<PortRule>, ports: &Vec<u16>, proto: PortProto)
    ensures
        final(out)@ == old(out)@ + rules_for(ports@, proto),
{
    let ghost before = out@;
    let mut i: usize = 0;
    assert(out@ =~= before + rules_for(ports@.take(0), proto));
    while i < ports.len()
        invariant
            i <= ports@.len(),
            out@ == before + rules_for(ports@.take(i as int), proto),
        decreases ports@.len() - i,
    {
        let port: u16 = ports[i];
        out.push(PortRule { port, proto });
        assert(out@ =~= before + rules_for(ports@.take(i + 1), proto));
        i += 1;
    }
    assert(ports@.take(i as int) =~= ports@);
}

/// What to do about the ports of a node that starts.
#[derive(Debug)]
pub struct FirewallSync {
    /// The ports that are open afterwards.
    pub state: FirewallState,
    /// To be closed.
    pub stale: Vec<PortRule>,
    /// To be opened, if they are not.
    pub want: Vec<PortRule>,
}

/// Compares the ports that were opened with those that the node listens on now.
pub fn ensure_runtime_firewall(before: &FirewallState, udp_ports: &[u16], tcp_ports: &[u16]) -> (sync: FirewallSync)
    ensures
        strictly_ascending(sync.state.udp@),
        strictly_ascending(sync.state.tcp@),
        forall|p: u16| #[trigger]
            sync.state.udp@.contains(p) <==> p != 0 && udp_ports@.contains(p),
        forall|p: u16| #[trigger]
            sync.state.tcp@.contains(p) <==> p != 0 && tcp_ports@.contains(p),
        sync.stale@ == rules_for(missing(before.udp@, sync.state.udp@), PortProto::Udp) + rules_for(
            missing(before.tcp@, sync.state.tcp@),
            PortProto::Tcp,
        ),
        sync.want@ == open_ports(sync.state),
        sync.want@.no_duplicates(),
{
    let state = FirewallState { udp: dedup_ports(udp_ports), tcp: dedup_ports(tcp_ports) };
    let mut stale: Vec<PortRule> = Vec::new();
    push_missing(&mut stale, &before.udp, &state.udp, PortProto::Udp);
    push_missing(&mut stale, &before.tcp, &state.tcp, PortProto::Tcp);
    assert(stale@ =~= rules_for(missing(before.udp@, state.udp@), PortProto::Udp) + rules_for(
        missing(before.tcp@, state.tcp@),
        PortProto::Tcp,
    ));
    let want = cleanup_runtime_firewall(&state);
    proof {
        let u = state.udp@;
        let t = state.tcp@;
        assert forall|i: int, j: int| 0 <= i < want@.len() && 0 <= j < want@.len() && i != j implies want@[i]
            != want@[j] by {
            let n = u.len() as int;
            if i < n && j < n {
                assert(u[i] != u[j]);
            } else if i >= n && j >= n {
                assert(t[i - n] != t[j - n]);
            }
        }
    }
    FirewallSync { state, stale, want }
}

/// The ports that a state says are open.
pub open spec fn open_ports(state: FirewallState) -> Seq<PortRule> {
    rules_for(state.udp@, PortProto::Udp) + rules_for(state.tcp@, PortProto::Tcp)
}

/// The ports to close when the node ends: all that it has opened.
pub fn cleanup_runtime_firewall(state: &FirewallState) -> (ports: Vec<PortRule>)
    ensures
        ports@ == open_ports(*state),
{
    let mut ports: Vec<PortRule> = Vec::new();
    push_all(&mut ports, &state.udp, PortProto::Udp);
    push_all(&mut ports, &state.tcp, PortProto::Tcp);
    assert(ports@ =~= open_ports(*state));
    ports
}

/// The ports to close are those that were open and are not listened on any more:
/// none is left open, and none in use is closed.
pub proof fn lemma_ports_follow_listeners(ports: Seq<u16>, others: Seq<u16>, p: u16)
    ensures
        missing(ports, others).contains(p) <==> ports.contains(p) && !others.contains(p),
    decreases ports.len(),
{
    if ports.len() > 0 {
        let front = ports.drop_last();
        lemma_ports_follow_listeners(front, others, p);
        let before = missing(front, others);
        if front.contains(p) {
            let k = choose|k: int| 0 <= k < front.len() && front[k] == p;
            assert(ports[k] == p);
        }
        if ports.contains(p) {
            let k = choose|k: int| 0 <= k < ports.len() && ports[k] == p;
            if k < front.len() {
                assert(front[k] == p);
            }
        }
        assert(ports.contains(ports.last())) by {
            assert(ports[ports.len() - 1] == ports.last());
        }
        if !others.contains(ports.last()) {
            let after = before.push(ports.last());
            if before.contains(p) {
                let k = choose|k: int| 0 <= k < before.len() && before[k] == p;
                assert(after[k] == p);
            }
            assert(after[before.len() as int] == ports.last());
            if after.contains(p) {
                let k = choose|k: int| 0 <= k < after.len() && after[k] == p;
                if k < before.len() {
                    assert(before[k] == p);
                }
            }
        }
    }
}

/// Numbers in square brackets.
pub open spec fn list_text(ports: Seq<u16>) -> Seq<char> {
    seq!['['] + list_inside(ports) + seq![']']
}

/// Numbers, with commas between them.
pub open spec fn list_inside(ports: Seq<u16>) -> Seq<char>
    decreases ports.len(),
{
    if ports.len() == 0 {
        Seq::empty()
    } else if ports.len() == 1 {
        addr::decimal(ports[0] as nat)
    } else {
        list_inside(ports.drop_last()) + ", "@ + addr::decimal(ports.last() as nat)
    }
}

fn write_list(ports: &Vec<u16>) -> (text: String)
    ensures
        text@ == list_text(ports@),
{
    let mut inside = String::new();
    let mut i: usize = 0;
    assert(inside@ =~= list_inside(ports@.take(0)));
    while i < ports.len()
        invariant
            i <= ports@.len(),
            inside@ == list_inside(ports@.take(i as int)),
        decreases ports@.len() - i,
    {
        assert(ports@.take(i + 1).drop_last() =~= ports@.take(i as int));
        assert(ports@.take(i + 1).last() == ports@[i as int]);
        let number = decimal_text(ports[i] as u64);
        if i > 0 {
            inside.append(", ");
            inside.append(number.as_str());
        } else {
            inside = number;
        }
        i += 1;
    }
    assert(ports@.take(i as int) =~= ports@);
    let mut text = String::new();
    text.push('[');
    text.append(inside.as_str());
    text.push(']');
    assert(text@ =~= list_text(ports@));
    text
}

/// What is said when the ports are open.
pub fn synced_line(state: &FirewallState) -> (line: String)
    ensures
        line@ == "防火墙：Linux 运行时规则已同步（udp="@ + list_text(state.udp@) + " tcp="@ + list_text(
            state.tcp@,
        ) + "）"@,
{
    let mut line = owned("防火墙：Linux 运行时规则已同步（udp=");
    line.append(write_list(&state.udp).as_str());
    line.append(" tcp=");
    line.append(write_list(&state.tcp).as_str());
    line.append("）");
    line
}

/// The rule of the Windows firewall for a protocol. It has the same name whatever
/// the ports are, so the rule of an earlier start is found again.
pub open spec fn rule_name(proto: PortProto) -> Seq<char> {
    match proto {
        PortProto::Udp => "Starskiff Node UDP"@,
        PortProto::Tcp => "Starskiff Node TCP"@,
    }
}

/// The name of the rule for a protocol.
pub fn windows_rule_name(proto: PortProto) -> (name: &'static str)
    ensures
        name@ == rule_name(proto),
{
    match proto {
        PortProto::Udp => "Starskiff Node UDP",
        PortProto::Tcp => "Starskiff Node TCP",
    }
}

/// What a rule says of the protocol.
pub open spec fn protocol_arg(proto: PortProto) -> Seq<char> {
    match proto {
        PortProto::Udp => "protocol=UDP"@,
        PortProto::Tcp => "protocol=TCP"@,
    }
}

/// Some port is listened on; zero is no port.
pub open spec fn listens(ports: Seq<u16>) -> bool {
    exists|i: int| 0 <= i < ports.len() && #[trigger] ports[i] != 0
}

/// Ports with commas between them; zero is no port.
pub open spec fn comma_ports(ports: Seq<u16>) -> Seq<char>
    decreases ports.len(),
{
    if ports.len() == 0 {
        Seq::empty()
    } else {
        let before = comma_ports(ports.drop_last());
        if ports.last() == 0 {
            before
        } else if listens(ports.drop_last()) {
            before + ","@ + addr::decimal(ports.last() as nat)
        } else {
            addr::decimal(ports.last() as nat)
        }
    }
}

/// The command that takes a rule out. There may be none.
pub open spec fn rule_removal(proto: PortProto) -> CommandView {
    CommandView {
        program: "netsh"@,
        args: seq!["advfirewall"@, "firewall"@, "delete"@, "rule"@, "name="@ + rule_name(proto)],
        fatal: false,
    }
}

/// The command that takes a rule out.
pub fn windows_rule_removal(proto: PortProto) -> (command: ToolCommand)
    ensures
        command@ == rule_removal(proto),
{
    let mut args: Vec<String> = Vec::new();
    push_arg(&mut args, "advfirewall");
    push_arg(&mut args, "firewall");
    push_arg(&mut args, "delete");
    push_arg(&mut args, "rule");
    push_arg(&mut args, join("name=", windows_rule_name(proto)).as_str());
    assert(text::texts(args@) =~= rule_removal(proto).args);
    tool_command("netsh", args, false)
}

/// How the rule for a protocol is made anew.
#[derive(Debug)]
pub struct RuleChange {
    /// Takes the rule of an earlier start out.
    pub remove: ToolCommand,
    /// Puts the rule in; there is none without a port.
    pub add: Option<ToolCommand>,
    /// The ports, for the log.
    pub ports: String,
}

/// The command that lets traffic for a program in, at these ports alone.
pub open spec fn rule_addition(proto: PortProto, exe: Seq<char>, ports: Seq<u16>) -> CommandView {
    CommandView {
        program: "netsh"@,
        args: seq![
            "advfirewall"@,
            "firewall"@,
            "add"@,
            "rule"@,
            "name="@ + rule_name(proto),
            "dir=in"@,
            "action=allow"@,
            protocol_arg(proto),
            "program="@ + exe,
            "localport="@ + comma_ports(ports),
        ],
        fatal: true,
    }
}

/// How the rule for a protocol is made anew for the ports that the node listens on.
pub fn windows_rule_change(proto: PortProto, exe: &str, ports: &[u16]) -> (change: RuleChange)
    ensures
        change.remove@ == rule_removal(proto),
        change.add is Some == listens(ports@),
        change.add matches Some(c) ==> c@ == rule_addition(proto, exe@, ports@),
        change.ports@ == comma_ports(ports@),
{
    let mut list = String::new();
    let mut any = false;
    let mut i: usize = 0;
    assert(list@ =~= Seq::<char>::empty());
    assert(ports@.take(0) =~= Seq::<u16>::empty());
    while i < ports.len()
        invariant
            i <= ports@.len(),
            any == listens(ports@.take(i as int)),
            list@ == comma_ports(ports@.take(i as int)),
            !any ==> list@ == Seq::<char>::empty(),
        decreases ports@.len() - i,
    {
        let ghost seen = ports@.take(i as int);
        let ghost now = ports@.take(i + 1);
        proof {
            assert(now.drop_last() =~= seen);
            assert(now.last() == ports@[i as int]);
            if listens(seen) {
                let k = choose|k: int| 0 <= k < seen.len() && #[trigger] seen[k] != 0;
                assert(now[k] != 0);
            }
            if listens(now) {
                let k = choose|k: int| 0 <= k < now.len() && #[trigger] now[k] != 0;
                if k < i {
                    assert(seen[k] != 0);
                }
            }
        }
        let port: u16 = ports[i];
        if port != 0 {
            assert(now[i as int] != 0);
            if any {
                list.append(",");
            }
            list.append(decimal_text(port as u64).as_str());
            any = true;
        }
        assert(list@ =~= comma_ports(now));
        i += 1;
    }
    assert(ports@.take(i as int) =~= ports@);
    let add = if any {
        let mut args: Vec<String> = Vec::new();
        push_arg(&mut args, "advfirewall");
        push_arg(&mut args, "firewall");
        push_arg(&mut args, "add");
        push_arg(&mut args, "rule");
        push_arg(&mut args, join("name=", windows_rule_name(proto)).as_str());
        push_arg(&mut args, "dir=in");
        push_arg(&mut args, "action=allow");
        push_arg(
            &mut args,
            match proto {
                PortProto::Udp => "protocol=UDP",
                PortProto::Tcp => "protocol=TCP",
            },
        );
        push_arg(&mut args, join("program=", exe).as_str());
        push_arg(&mut args, join("localport=", list.as_str()).as_str());
        assert(text::texts(args@) =~= rule_addition(proto, exe@, ports@).args);
        Some(tool_command("netsh", args, true))
    } else {
        None
    };
    RuleChange { remove: windows_rule_removal(proto), add, ports: list }
}

/// What the log says of a rule that was made anew.
pub fn rule_updated_line(proto: PortProto, ports: &str) -> (line: String)
    ensures
        line@ == "防火墙：规则 "@ + rule_name(proto) + " 已按当期端口更新（"@ + ports@ + "）"@,
{
    let mut line = owned("防火墙：规则 ");
    line.append(windows_rule_name(proto));
    line.append(" 已按当期端口更新（");
    line.append(ports);
    line.append("）");
    line
}

/// What the log says of a rule that could not be made.
pub fn rule_failed_line(proto: PortProto, error: &str) -> (line: String)
    ensures
        line@ == "防火墙：规则 "@ + rule_name(proto) + " 更新失败（"@ + error@ + "）"@,
{
    let mut line = owned("防火墙：规则 ");
    line.append(windows_rule_name(proto));
    line.append(" 更新失败（");
    line.append(error);
    line.append("）");
    line
}

/// The command line of a Windows service is that of a unit: the program, the
/// configuration, and the log file where there is one.
pub proof fn lemma_same_command_line(exe: Seq<char>, config: Seq<char>, log_file: Seq<char>)
    ensures
        image_path(exe, config, Seq::empty()) == run_line(exe, config, None),
        log_file.len() > 0 ==> image_path(exe, config, log_file) == run_line(exe, config, Some(log_file)),
        run_line(exe, config, None) == exe + " service run -c "@ + config,
        run_line(exe, config, Some(log_file)) == exe + " service run -c "@ + config + " --log-file "@ + log_file,
{
    assert(run_line(exe, config, None) =~= exe + " service run -c "@ + config);
    assert(run_line(exe, config, Some(log_file)) =~= exe + " service run -c "@ + config + " --log-file "@
        + log_file);
}

/// A path is refused if and only if there is a space in it.
pub proof fn lemma_spaces_are_refused(label: Seq<char>, path: Seq<char>)
    ensures
        path_error(label, path) is Some <==> exists|i: int| 0 <= i < path.len() && #[trigger] path[i] == ' ',
{
}

/// A service starts by itself unless it is to be started by hand; it starts late if that
/// was asked for.
pub proof fn lemma_how_a_service_starts(mode: Seq<char>)
    ensures
        start_flag("delayed"@) == "delayed-auto"@,
        start_flag("demand"@) == "demand"@,
        mode != "delayed"@ && mode != "demand"@ ==> start_flag(mode) == "auto"@,
{
    reveal_strlit("delayed");
    reveal_strlit("demand");
    assert("delayed"@.len() == 7 && "demand"@.len() == 6);
}

/// A Windows service is created and given its command line, and both must succeed. It is
/// described, and, unless it is not to be started again, told to start again when it
/// fails; either may fail.
pub proof fn lemma_how_a_service_is_installed(
    name: Seq<char>,
    exe: Seq<char>,
    config: Seq<char>,
    log_file: Seq<char>,
    mode: Seq<char>,
    display: Seq<char>,
    no_restart: bool,
)
    ensures
        ({
            let plan = windows_plan(name, exe, config, log_file, mode, display, no_restart);
            &&& plan.len() == (if no_restart {
                3int
            } else {
                4int
            })
            &&& plan[0].program == "sc"@ && plan[0].args[0] == "create"@ && plan[0].args[1] == name
                && plan[0].args[4] == start_flag(mode)
            &&& plan[1].program == "reg"@ && plan[1].args[1] == "HKLM\\SYSTEM\\CurrentControlSet\\Services\\"@ + name
                && plan[1].args[3] == "ImagePath"@ && plan[1].args[7] == image_path(exe, config, log_file)
            &&& plan[2].args[0] == "description"@ && plan[2].args[1] == name
            &&& !no_restart ==> plan[3].args[0] == "failure"@ && plan[3].args[1] == name
            &&& plan[0].fatal && plan[1].fatal && !plan[2].fatal && (!no_restart ==> !plan[3].fatal)
        }),
{
}

/// The first line that begins with a head is the one that is found.
pub proof fn lemma_first_line_behind(lines: Seq<Seq<char>>, head: Seq<char>, i: int)
    requires
        0 <= i <= lines.len(),
        forall|j: int| 0 <= j < i ==> !runtime::starts_with(#[trigger] lines[j], head),
    ensures
        i == lines.len() ==> line_behind(lines, head) is None,
        i < lines.len() && runtime::starts_with(lines[i], head) ==> line_behind(lines, head) == Some(
            lines[i].skip(head.len() as int),
        ),
    decreases i,
{
    if i > 0 {
        assert(!runtime::starts_with(lines[0], head));
        assert forall|j: int| 0 <= j < i - 1 implies !runtime::starts_with(
            #[trigger] lines.skip(1)[j],
            head,
        ) by {
            assert(lines.skip(1)[j] == lines[j + 1]);
        }
        lemma_first_line_behind(lines.skip(1), head, i - 1);
    }
}

/// The configuration is the word behind the first `-c`.
pub proof fn lemma_config_is_behind_its_flag(words: Seq<Seq<char>>, i: int)
    requires
        0 <= i <= words.len(),
        forall|j: int| 0 <= j < i ==> #[trigger] words[j] != "-c"@,
    ensures
        i == words.len() ==> config_word(words) is None,
        i + 1 < words.len() && words[i] == "-c"@ ==> config_word(words) == Some(words[i + 1]),
        i + 1 == words.len() && words[i] == "-c"@ ==> config_word(words) is None,
    decreases i,
{
    if i > 0 {
        assert(words[0] != "-c"@);
        assert forall|j: int| 0 <= j < i - 1 implies #[trigger] words.skip(1)[j] != "-c"@ by {
            assert(words.skip(1)[j] == words[j + 1]);
        }
        lemma_config_is_behind_its_flag(words.skip(1), i - 1);
    }
}

/// What is missing from a list comes in the order of the list.
pub proof fn lemma_missing_in_order(a: Seq<u16>, b: Seq<u16>, others: Seq<u16>)
    ensures
        missing(a + b, others) == missing(a, others) + missing(b, others),
        b.len() == 1 ==> missing(b, others) == (if others.contains(b[0]) {
            Seq::<u16>::empty()
        } else {
            b
        }),
    decreases b.len(),
{
    if b.len() == 0 {
        assert(a + b =~= a);
        assert(missing(a, others) + missing(b, others) =~= missing(a, others));
    } else {
        lemma_missing_in_order(a, b.drop_last(), others);
        assert((a + b).drop_last() =~= a + b.drop_last());
        assert((a + b).last() == b.last());
        assert(missing(a + b, others) =~= missing(a, others) + missing(b, others));
        if b.len() == 1 {
            assert(missing(b.drop_last(), others) =~= Seq::empty());
            assert(missing(b, others) =~= (if others.contains(b[0]) {
                Seq::<u16>::empty()
            } else {
                b
            }));
        }
    }
}

/// A rule of the Windows firewall names the ports that are listened on, in order, with
/// commas between them. Zero is no port.
pub proof fn lemma_ports_of_a_rule(ports: Seq<u16>, port: u16)
    ensures
        comma_ports(ports.push(0)) == comma_ports(ports),
        port != 0 && (exists|i: int| 0 <= i < ports.len() && #[trigger] ports[i] != 0) ==> comma_ports(
            ports.push(port),
        ) == comma_ports(ports) + ","@ + addr::decimal(port as nat),
        port != 0 && !(exists|i: int| 0 <= i < ports.len() && #[trigger] ports[i] != 0) ==> comma_ports(
            ports.push(port),
        ) == addr::decimal(port as nat),
        list_text(Seq::empty()) == seq!['[', ']'],
        list_inside(seq![port]) == addr::decimal(port as nat),
        ports.len() > 0 ==> list_inside(ports.push(port)) == list_inside(ports) + ", "@ + addr::decimal(
            port as nat,
        ),
{
    assert(ports.push(0).drop_last() =~= ports);
    assert(ports.push(port).drop_last() =~= ports);
    assert(list_text(Seq::empty()) =~= seq!['[', ']']);
}

/// A port is open for the protocol that listens on it.
pub proof fn lemma_open_for_its_protocol(state: FirewallState, port: u16)
    ensures
        open_ports(state).contains(PortRule { port, proto: PortProto::Udp }) <==> state.udp@.contains(port),
        open_ports(state).contains(PortRule { port, proto: PortProto::Tcp }) <==> state.tcp@.contains(port),
{
    let all = open_ports(state);
    let n = state.udp@.len() as int;
    if state.udp@.contains(port) {
        let i = choose|i: int| 0 <= i < n && state.udp@[i] == port;
        assert(all[i] == PortRule { port, proto: PortProto::Udp });
    }
    if state.tcp@.contains(port) {
        let i = choose|i: int| 0 <= i < state.tcp@.len() && state.tcp@[i] == port;
        assert(all[n + i] == PortRule { port, proto: PortProto::Tcp });
    }
    if all.contains(PortRule { port, proto: PortProto::Udp }) {
        let i = choose|i: int| 0 <= i < all.len() && all[i] == (PortRule { port, proto: PortProto::Udp });
        if i < n {
            assert(state.udp@[i] == port);
        } else {
            assert(all[i].proto == PortProto::Tcp);
        }
    }
    if all.contains(PortRule { port, proto: PortProto::Tcp }) {
        let i = choose|i: int| 0 <= i < all.len() && all[i] == (PortRule { port, proto: PortProto::Tcp });
        if i < n {
            assert(all[i].proto == PortProto::Udp);
        } else {
            assert(state.tcp@[i - n] == port);
        }
    }
}

/// A rule of the Windows firewall is added and removed under the same name, one for each
/// protocol, and lets in what comes for the program on the ports that are listened on.
/// Only adding must succeed.
pub proof fn lemma_rule_is_removed_by_its_name(proto: PortProto, exe: Seq<char>, ports: Seq<u16>)
    ensures
        ({
            let name = "name="@ + (match proto {
                PortProto::Udp => "Starskiff Node UDP"@,
                PortProto::Tcp => "Starskiff Node TCP"@,
            });
            let added = rule_addition(proto, exe, ports);
            let removed = rule_removal(proto);
            &&& added.program == "netsh"@ && removed.program == "netsh"@
            &&& added.fatal && !removed.fatal
            &&& removed.args == seq!["advfirewall"@, "firewall"@, "delete"@, "rule"@, name]
            &&& added.args == seq![
                "advfirewall"@,
                "firewall"@,
                "add"@,
                "rule"@,
                name,
                "dir=in"@,
                "action=allow"@,
                match proto {
                    PortProto::Udp => "protocol=UDP"@,
                    PortProto::Tcp => "protocol=TCP"@,
                },
                "program="@ + exe,
                "localport="@ + comma_ports(ports),
            ]
        }),
{
}

/// In an ordered list no port comes twice.
pub proof fn lemma_each_port_comes_once(ports: Seq<u16>, i: int, j: int)
    requires
        strictly_ascending(ports),
        0 <= i < ports.len(),
        0 <= j < ports.len(),
    ensures
        ports[i] == ports[j] <==> i == j,
        i < j <==> ports[i] < ports[j],
{
}

} // verus!
