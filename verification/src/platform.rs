//! The tools of the operating system: which commands do what, and what their
//! failure is told as. Arguments are handed over one by one, never through a
//! shell.

use vstd::multiset::Multiset;
use vstd::prelude::*;

use crate::addr;
use crate::addr::{decimal_text, parse_u64, signed_text};
use crate::text;
use crate::text::{join, owned, split_words, trim};

verus! {

/// A command to run.
#[derive(Debug)]
pub struct ToolCommand {
    pub program: String,
    pub args: Vec<String>,
    /// Whether its failure ends the matter.
    pub fatal: bool,
}

/// A command to run, as values.
#[verifier::ext_equal]
pub ghost struct CommandView {
    pub program: Seq<char>,
    pub args: Seq<Seq<char>>,
    pub fatal: bool,
}

impl View for ToolCommand {
    type V = CommandView;

    open spec fn view(&self) -> CommandView {
        CommandView { program: self.program@, args: text::texts(self.args@), fatal: self.fatal }
    }
}

/// Commands to run, as values.
pub open spec fn commands_view(list: Seq<ToolCommand>) -> Seq<CommandView> {
    list.map_values(|c: ToolCommand| c@)
}

/// Puts a command together.
pub fn tool_command(program: &str, args: Vec<String>, fatal: bool) -> (command: ToolCommand)
    ensures
        command@ == (CommandView { program: program@, args: text::texts(args@), fatal }),
{
    ToolCommand { program: owned(program), args, fatal }
}

/// Puts an argument behind others.
pub fn push_arg(args: &mut Vec<String>, arg: &str)
    ensures
        text::texts(final(args)@) == text::texts(old(args)@).push(arg@),
{
    args.push(owned(arg));
    assert(text::texts(args@) =~= text::texts(old(args)@).push(arg@));
}

/// Puts a command behind others.
pub fn push_command(list: &mut Vec<ToolCommand>, command: ToolCommand)
    ensures
        commands_view(final(list)@) == commands_view(old(list)@).push(command@),
{
    list.push(command);
    assert(commands_view(list@) =~= commands_view(old(list)@).push(command@));
}

/// A transport protocol.
#[derive(Debug, Clone, Copy, PartialEq, Eq, Structural)]
pub enum PortProto {
    Udp,
    Tcp,
}

impl PortProto {
    /// The name of the protocol.
    pub open spec fn text(self) -> Seq<char> {
        match self {
            PortProto::Udp => "udp"@,
            PortProto::Tcp => "tcp"@,
        }
    }

    /// The name of the protocol.
    pub fn as_str(&self) -> (name: &'static str)
        ensures
            name@ == self.text(),
    {
        match self {
            PortProto::Udp => "udp",
            PortProto::Tcp => "tcp",
        }
    }
}

/// A port that is open to others.
#[derive(Debug, Clone, Copy, PartialEq, Eq, Structural)]
pub struct PortRule {
    pub port: u16,
    pub proto: PortProto,
}

impl PortRule {
    /// The port and its protocol.
    pub open spec fn text(self) -> Seq<char> {
        addr::decimal(self.port as nat) + "/"@ + self.proto.text()
    }

    fn to_text(&self) -> (text: String)
        ensures
            text@ == self.text(),
    {
        let mut text = decimal_text(self.port as u64);
        text.append("/");
        text.append(self.proto.as_str());
        text
    }
}

/// What guards the ports of a Linux machine.
#[derive(Debug, Clone, Copy, PartialEq, Eq, Structural)]
pub enum FirewallTool {
    Ufw,
    Firewalld,
    Iptables,
}

/// The tool to use: the first that is there.
pub fn choose_tool(ufw: bool, firewalld: bool, iptables: bool) -> (tool: Result<FirewallTool, String>)
    ensures
        match tool {
            Ok(t) => t == (if ufw {
                FirewallTool::Ufw
            } else if firewalld {
                FirewallTool::Firewalld
            } else {
                FirewallTool::Iptables
            }) && (ufw || firewalld || iptables),
            Err(e) => !ufw && !firewalld && !iptables && e@
                == "未找到 ufw/firewalld/iptables，请手动放行端口（云安全组亦需手动放行）"@,
        },
{
    if ufw {
        Ok(FirewallTool::Ufw)
    } else if firewalld {
        Ok(FirewallTool::Firewalld)
    } else if iptables {
        Ok(FirewallTool::Iptables)
    } else {
        Err(owned("未找到 ufw/firewalld/iptables，请手动放行端口（云安全组亦需手动放行）"))
    }
}

/// The rule that lets traffic to a port in: the same text puts it in and takes it
/// out.
pub open spec fn iptables_rule(unit: Seq<char>, rule: PortRule) -> Seq<Seq<char>> {
    seq![
        "-p"@,
        rule.proto.text(),
        "--dport="@ + addr::decimal(rule.port as nat),
        "-j"@,
        "ACCEPT"@,
        "-m"@,
        "comment"@,
        "--comment"@,
        "starskiff-"@ + unit + "-"@ + rule.proto.text(),
    ]
}

/// The arguments that open or close a port.
pub open spec fn rule_args(tool: FirewallTool, unit: Seq<char>, rule: PortRule, add: bool) -> Seq<Seq<char>> {
    match tool {
        FirewallTool::Ufw => if add {
            seq!["allow"@, rule.text(), "comment"@, "starskiff "@ + unit]
        } else {
            seq!["delete"@, "allow"@, rule.text()]
        },
        FirewallTool::Firewalld => seq![
            "--permanent"@,
            if add {
                "--add-port"@
            } else {
                "--remove-port"@
            },
            rule.text(),
        ],
        FirewallTool::Iptables => (if add {
            seq!["-I"@, "INPUT"@, "1"@]
        } else {
            seq!["-D"@, "INPUT"@]
        }) + iptables_rule(unit, rule),
    }
}

/// The program of a tool.
pub open spec fn tool_program(tool: FirewallTool) -> Seq<char> {
    match tool {
        FirewallTool::Ufw => "ufw"@,
        FirewallTool::Firewalld => "firewall-cmd"@,
        FirewallTool::Iptables => "iptables"@,
    }
}

/// The name by which a failure of a tool is told.
pub fn tool_name(tool: FirewallTool) -> (name: &'static str)
    ensures
        name@ == (match tool {
            FirewallTool::Ufw => "ufw"@,
            FirewallTool::Firewalld => "firewalld"@,
            FirewallTool::Iptables => "iptables"@,
        }),
{
    match tool {
        FirewallTool::Ufw => "ufw",
        FirewallTool::Firewalld => "firewalld",
        FirewallTool::Iptables => "iptables",
    }
}

/// The commands that open or close the first `n` ports.
pub open spec fn rule_commands(
    tool: FirewallTool,
    unit: Seq<char>,
    ports: Seq<PortRule>,
    add: bool,
) -> Seq<CommandView> {
    Seq::new(
        ports.len(),
        |i: int|
            CommandView {
                program: tool_program(tool),
                args: rule_args(tool, unit, ports[i], add),
                fatal: true,
            },
    )
}

/// The commands that open or close ports. One tool has to be told to read its rules
/// again; that it fails to is no failure.
pub open spec fn firewall_plan(
    tool: FirewallTool,
    unit: Seq<char>,
    ports: Seq<PortRule>,
    add: bool,
) -> Seq<CommandView> {
    let rules = rule_commands(tool, unit, ports, add);
    if tool is Firewalld {
        rules.push(
            CommandView { program: "firewall-cmd"@, args: seq!["--reload"@], fatal: false },
        )
    } else {
        rules
    }
}

/// Puts what a rule matches behind other arguments.
fn push_match(args: &mut Vec<String>, unit: &str, rule: &PortRule)
    ensures
        text::texts(final(args)@) == text::texts(old(args)@) + iptables_rule(unit@, *rule),
{
    let ghost before = text::texts(args@);
    push_arg(args, "-p");
    push_arg(args, rule.proto.as_str());
    push_arg(args, join("--dport=", decimal_text(rule.port as u64).as_str()).as_str());
    push_arg(args, "-j");
    push_arg(args, "ACCEPT");
    push_arg(args, "-m");
    push_arg(args, "comment");
    push_arg(args, "--comment");
    let mut comment = join("starskiff-", unit);
    comment.append("-");
    comment.append(rule.proto.as_str());
    push_arg(args, comment.as_str());
    assert(text::texts(args@) =~= before + iptables_rule(unit@, *rule));
}

fn port_args(tool: FirewallTool, unit: &str, rule: &PortRule, add: bool) -> (args: Vec<String>)
    ensures
        text::texts(args@) == rule_args(tool, unit@, *rule, add),
{
    let mut args: Vec<String> = Vec::new();
    assert(text::texts(args@) =~= Seq::empty());
    match tool {
        FirewallTool::Ufw => {
            if add {
                push_arg(&mut args, "allow");
                push_arg(&mut args, rule.to_text().as_str());
                push_arg(&mut args, "comment");
                push_arg(&mut args, join("starskiff ", unit).as_str());
            } else {
                push_arg(&mut args, "delete");
                push_arg(&mut args, "allow");
                push_arg(&mut args, rule.to_text().as_str());
            }
        },
        FirewallTool::Firewalld => {
            push_arg(&mut args, "--permanent");
            push_arg(
                &mut args,
                if add {
                    "--add-port"
                } else {
                    "--remove-port"
                },
            );
            push_arg(&mut args, rule.to_text().as_str());
        },
        FirewallTool::Iptables => {
            if add {
                push_arg(&mut args, "-I");
                push_arg(&mut args, "INPUT");
                push_arg(&mut args, "1");
            } else {
                push_arg(&mut args, "-D");
                push_arg(&mut args, "INPUT");
            }
            push_match(&mut args, unit, rule);
        },
    }
    assert(text::texts(args@) =~= rule_args(tool, unit@, *rule, add));
    args
}

fn firewall_commands(tool: FirewallTool, unit: &str, ports: &Vec<PortRule>, add: bool) -> (list: Vec<
    ToolCommand,
>)
    ensures
        commands_view(list@) == firewall_plan(tool, unit@, ports@, add),
{
    let mut list: Vec<ToolCommand> = Vec::new();
    let ghost want = rule_commands(tool, unit@, ports@, add);
    let program = match tool {
        FirewallTool::Ufw => "ufw",
        FirewallTool::Firewalld => "firewall-cmd",
        FirewallTool::Iptables => "iptables",
    };
    let mut i: usize = 0;
    assert(commands_view(list@) =~= want.take(0));
    while i < ports.len()
        invariant
            i <= ports@.len(),
            program@ == tool_program(tool),
            want == rule_commands(tool, unit@, ports@, add),
            commands_view(list@) == want.take(i as int),
        decreases ports@.len() - i,
    {
        let args = port_args(tool, unit, &ports[i], add);
        push_command(&mut list, tool_command(program, args, true));
        assert(want.take(i + 1) =~= want.take(i as int).push(want[i as int]));
        i += 1;
    }
    assert(want.take(i as int) =~= want);
    if let FirewallTool::Firewalld = tool {
        let mut args: Vec<String> = Vec::new();
        push_arg(&mut args, "--reload");
        assert(text::texts(args@) =~= seq!["--reload"@]);
        push_command(&mut list, tool_command("firewall-cmd", args, false));
    }
    list
}

/// The commands that open ports.
pub fn linux_firewall_add(tool: FirewallTool, unit: &str, ports: &Vec<PortRule>) -> (list: Vec<ToolCommand>)
    ensures
        commands_view(list@) == firewall_plan(tool, unit@, ports@, true),
{
    firewall_commands(tool, unit, ports, true)
}

/// The commands that close ports.
pub fn linux_firewall_remove(tool: FirewallTool, unit: &str, ports: &Vec<PortRule>) -> (list: Vec<
    ToolCommand,
>)
    ensures
        commands_view(list@) == firewall_plan(tool, unit@, ports@, false),
{
    firewall_commands(tool, unit, ports, false)
}

/// The arguments that ask whether a rule is there.
pub open spec fn check_args(unit: Seq<char>, rule: PortRule) -> Seq<Seq<char>> {
    seq!["-C"@, "INPUT"@] + iptables_rule(unit, rule)
}

/// The command that succeeds exactly if the rule of a port is there. Only one tool
/// has to be asked: the others take a rule that is there as it is.
pub fn linux_firewall_check(tool: FirewallTool, unit: &str, rule: &PortRule) -> (check: Option<ToolCommand>)
    ensures
        check is Some == (tool is Iptables),
        check matches Some(c) ==> c@ == (CommandView {
            program: "iptables"@,
            args: check_args(unit@, *rule),
            fatal: false,
        }),
{
    if let FirewallTool::Iptables = tool {
        let mut args: Vec<String> = Vec::new();
        assert(text::texts(args@) =~= Seq::empty());
        push_arg(&mut args, "-C");
        push_arg(&mut args, "INPUT");
        push_match(&mut args, unit, rule);
        assert(text::texts(args@) =~= check_args(unit@, *rule));
        Some(tool_command("iptables", args, false))
    } else {
        None
    }
}

/// The ports whose rules are not there yet. A port of which nothing was found out
/// counts as one of them.
pub open spec fn absent(ports: Seq<PortRule>, present: Seq<bool>) -> Seq<PortRule>
    decreases ports.len(),
{
    if ports.len() == 0 {
        Seq::empty()
    } else {
        let before = absent(ports.drop_last(), present);
        let last = ports.len() - 1;
        if last < present.len() && present[last] {
            before
        } else {
            before.push(ports[last])
        }
    }
}

/// The entry `i` names a port, and its rule was not found.
pub open spec fn is_absent(ports: Seq<PortRule>, present: Seq<bool>, i: int, rule: PortRule) -> bool {
    0 <= i < ports.len() && ports[i] == rule && !(i < present.len() && present[i])
}

/// The ports whose rules are not there yet, in order. `present` says of each port
/// whether its rule was found.
pub fn rules_to_add(ports: &Vec<PortRule>, present: &Vec<bool>) -> (list: Vec<PortRule>)
    ensures
        list@ == absent(ports@, present@),
        forall|r: PortRule| #[trigger]
            list@.contains(r) <==> exists|i: int| #[trigger] is_absent(ports@, present@, i, r),
{
    let mut list: Vec<PortRule> = Vec::new();
    let mut i: usize = 0;
    assert(ports@.take(0) =~= Seq::<PortRule>::empty());
    while i < ports.len()
        invariant
            i <= ports@.len(),
            list@ == absent(ports@.take(i as int), present@),
        decreases ports@.len() - i,
    {
        assert(ports@.take(i + 1).drop_last() =~= ports@.take(i as int));
        let found = i < present.len() && present[i];
        if !found {
            list.push(ports[i]);
        }
        i += 1;
    }
    proof {
        assert(ports@.take(i as int) =~= ports@);
        lemma_absent(ports@, present@);
    }
    list
}

proof fn lemma_absent(ports: Seq<PortRule>, present: Seq<bool>)
    ensures
        forall|r: PortRule| #[trigger]
            absent(ports, present).contains(r) <==> exists|i: int| #[trigger]
                is_absent(ports, present, i, r),
        ports.no_duplicates() ==> absent(ports, present).no_duplicates(),
    decreases ports.len(),
{
    if ports.len() > 0 {
        let shorter = ports.drop_last();
        let last = ports.len() - 1;
        lemma_absent(shorter, present);
        let before = absent(shorter, present);
        let all = absent(ports, present);
        assert forall|r: PortRule| #[trigger] all.contains(r) <==> exists|i: int| #[trigger]
            is_absent(ports, present, i, r) by {
            if all.contains(r) {
                let k = choose|k: int| 0 <= k < all.len() && all[k] == r;
                if k < before.len() {
                    assert(before[k] == r);
                    assert(before.contains(r));
                    let i = choose|i: int| #[trigger] is_absent(shorter, present, i, r);
                    assert(is_absent(ports, present, i, r));
                } else {
                    assert(is_absent(ports, present, last, r));
                }
            }
            if exists|i: int| #[trigger] is_absent(ports, present, i, r) {
                let i = choose|i: int| #[trigger] is_absent(ports, present, i, r);
                if i < last {
                    assert(is_absent(shorter, present, i, r));
                    assert(before.contains(r));
                    let k = choose|k: int| 0 <= k < before.len() && before[k] == r;
                    assert(all[k] == r);
                } else {
                    assert(all[all.len() - 1] == r);
                }
            }
        }
        if ports.no_duplicates() {
            assert(shorter.no_duplicates());
            assert forall|a: int, b: int| 0 <= a < all.len() && 0 <= b < all.len() && a != b implies all[a]
                != all[b] by {
                let low = if a < b {
                    a
                } else {
                    b
                };
                assert(low < before.len());
                assert(before[low] == all[low]);
                assert(before.contains(all[low]));
                let i = choose|i: int| #[trigger] is_absent(shorter, present, i, all[low]);
                assert(ports[i] != ports[last]);
            }
        }
    } else {
        assert forall|r: PortRule| !#[trigger] absent(ports, present).contains(r) by {}
    }
}

/// What was found out of each port is what the firewall holds.
pub open spec fn finds(held: Multiset<PortRule>, ports: Seq<PortRule>, present: Seq<bool>) -> bool {
    &&& present.len() == ports.len()
    &&& forall|i: int| 0 <= i < ports.len() ==> #[trigger] present[i] == (held.count(ports[i]) > 0)
}

/// Where the rules of all ports are there, nothing is added: no command is left to
/// run.
pub proof fn lemma_nothing_is_added_twice(unit: Seq<char>, ports: Seq<PortRule>, present: Seq<bool>)
    requires
        present.len() == ports.len(),
        forall|i: int| 0 <= i < ports.len() ==> #[trigger] present[i],
    ensures
        absent(ports, present) == Seq::<PortRule>::empty(),
        firewall_plan(FirewallTool::Iptables, unit, absent(ports, present), true) == Seq::<
            CommandView,
        >::empty(),
{
    lemma_absent(ports, present);
    let list = absent(ports, present);
    if list.len() > 0 {
        assert(list.contains(list[0]));
        let i = choose|i: int| #[trigger] is_absent(ports, present, i, list[0]);
        assert(present[i]);
    }
    assert(list =~= Seq::<PortRule>::empty());
    assert(firewall_plan(FirewallTool::Iptables, unit, list, true) =~= Seq::<CommandView>::empty());
}

/// Opening ports leaves one rule for each, whether or not it was there before, and
/// leaves other rules alone. Opening them again finds every rule there, and adds
/// nothing.
pub proof fn lemma_add_is_idempotent(held: Multiset<PortRule>, ports: Seq<PortRule>, present: Seq<bool>)
    requires
        ports.no_duplicates(),
        finds(held, ports, present),
        forall|r: PortRule| ports.contains(r) ==> #[trigger] held.count(r) <= 1,
    ensures
        forall|r: PortRule| ports.contains(r) ==> #[trigger] held.add(
            absent(ports, present).to_multiset(),
        ).count(r) == 1,
        forall|r: PortRule| !ports.contains(r) ==> #[trigger] held.add(
            absent(ports, present).to_multiset(),
        ).count(r) == held.count(r),
        forall|again: Seq<bool>| #[trigger]
            finds(held.add(absent(ports, present).to_multiset()), ports, again) ==> absent(ports, again)
                == Seq::<PortRule>::empty(),
{
    broadcast use vstd::multiset::group_multiset_axioms;

    let list = absent(ports, present);
    let after = held.add(list.to_multiset());
    lemma_absent(ports, present);
    list.lemma_multiset_has_no_duplicates();
    assert forall|r: PortRule| ports.contains(r) implies #[trigger] after.count(r) == 1 by {
        vstd::seq_lib::to_multiset_contains(list, r);
        let i = choose|i: int| 0 <= i < ports.len() && ports[i] == r;
        assert(present[i] == (held.count(ports[i]) > 0));
        assert(held.count(r) <= 1);
        if !present[i] {
            assert(is_absent(ports, present, i, r));
            assert(list.to_multiset().contains(r));
        } else if list.contains(r) {
            let j = choose|j: int| #[trigger] is_absent(ports, present, j, r);
            assert(i == j);
        }
    }
    assert forall|r: PortRule| !ports.contains(r) implies #[trigger] after.count(r) == held.count(
        r,
    ) by {
        vstd::seq_lib::to_multiset_contains(list, r);
        if list.contains(r) {
            let j = choose|j: int| #[trigger] is_absent(ports, present, j, r);
            assert(ports[j] == r);
        }
    }
    assert forall|again: Seq<bool>| #[trigger] finds(after, ports, again) implies absent(ports, again)
        == Seq::<PortRule>::empty() by {
        assert forall|i: int| 0 <= i < ports.len() implies #[trigger] again[i] by {
            assert(ports.contains(ports[i]));
            assert(after.count(ports[i]) == 1);
        }
        lemma_nothing_is_added_twice(Seq::empty(), ports, again);
    }
}

/// What opens a port and what closes it name the same port and protocol: the rule
/// that goes in is the rule that comes out.
pub proof fn lemma_firewall_is_symmetric(unit: Seq<char>, rule: PortRule)
    ensures
        rule_args(FirewallTool::Iptables, unit, rule, true).skip(3) == rule_args(
            FirewallTool::Iptables,
            unit,
            rule,
            false,
        ).skip(2),
        rule_args(FirewallTool::Ufw, unit, rule, true)[1] == rule_args(
            FirewallTool::Ufw,
            unit,
            rule,
            false,
        )[2],
        rule_args(FirewallTool::Firewalld, unit, rule, true)[2] == rule_args(
            FirewallTool::Firewalld,
            unit,
            rule,
            false,
        )[2],
{
    let a = rule_args(FirewallTool::Iptables, unit, rule, true);
    let b = rule_args(FirewallTool::Iptables, unit, rule, false);
    assert(a.skip(3) =~= iptables_rule(unit, rule));
    assert(b.skip(2) =~= iptables_rule(unit, rule));
}

/// What is said of a tool that has failed.
pub open spec fn failure_text(program: Seq<char>, code: i64, stderr: Seq<char>, stdout: Seq<char>) -> Seq<
    char,
> {
    let head = program + " 退出码 "@ + addr::signed_decimal(code as int) + "："@ + text::trimmed(stderr);
    if text::trimmed(stdout).len() == 0 {
        head
    } else {
        head + " / "@ + text::trimmed(stdout)
    }
}

/// What is said of a tool that has failed: its exit code and what it wrote.
pub fn tool_failure(program: &str, code: i64, stderr: &str, stdout: &str) -> (line: String)
    ensures
        line@ == failure_text(program@, code, stderr@, stdout@),
{
    let mut line = owned(program);
    line.append(" 退出码 ");
    line.append(signed_text(code).as_str());
    line.append("：");
    line.append(trim(stderr).as_str());
    let said = trim(stdout);
    if !said.as_str().is_empty() {
        line.append(" / ");
        line.append(said.as_str());
    }
    line
}

/// What came of a tool: what it wrote, or that it has failed.
pub fn tool_outcome(program: &str, code: i64, stdout: &str, stderr: &str) -> (outcome: Result<String, String>)
    ensures
        outcome is Ok == (code == 0),
        match outcome {
            Ok(said) => said@ == text::trimmed(stdout@),
            Err(e) => e@ == failure_text(program@, code, stderr@, stdout@),
        },
{
    if code == 0 {
        Ok(trim(stdout))
    } else {
        Err(tool_failure(program, code, stderr, stdout))
    }
}

/// The pages that a process holds, by the second word of what the kernel says of
/// it.
pub fn resident_pages(statm: &str) -> (pages: Option<u64>)
    ensures
        match pages {
            Some(n) => text::words(statm@).len() >= 2 && addr::signed_number(
                text::words(statm@)[1],
                u64::MAX as nat,
            ) == Some(n as nat),
            None => text::words(statm@).len() < 2 || addr::signed_number(
                text::words(statm@)[1],
                u64::MAX as nat,
            ) is None,
        },
{
    let list = split_words(statm);
    assert(text::texts(list@).len() == list@.len());
    if list.len() < 2 {
        return None;
    }
    assert(text::texts(list@)[1] == list@[1]@);
    parse_u64(list[1].as_str())
}

/// For each port there is one command, in the order of the ports, and each must succeed.
/// Only firewalld is told afterwards to read its rules again, which may fail.
pub proof fn lemma_one_command_for_each_port(
    tool: FirewallTool,
    unit: Seq<char>,
    ports: Seq<PortRule>,
    add: bool,
    i: int,
)
    requires
        0 <= i < ports.len(),
    ensures
        ({
            let plan = firewall_plan(tool, unit, ports, add);
            &&& tool == FirewallTool::Firewalld ==> plan.len() == ports.len() + 1 && !plan.last().fatal
                && plan.last().args == seq!["--reload"@]
            &&& tool != FirewallTool::Firewalld ==> plan.len() == ports.len()
            &&& plan[i].fatal
            &&& plan[i].program == (match tool {
                FirewallTool::Ufw => "ufw"@,
                FirewallTool::Firewalld => "firewall-cmd"@,
                FirewallTool::Iptables => "iptables"@,
            })
            &&& plan[i].args == rule_args(tool, unit, ports[i], add)
        }),
{
}

/// A command names the port and the protocol that it is about.
pub proof fn lemma_command_names_its_port(unit: Seq<char>, rule: PortRule, add: bool)
    ensures
        ({
            let port = addr::decimal(rule.port as nat);
            let proto = match rule.proto {
                PortProto::Udp => "udp"@,
                PortProto::Tcp => "tcp"@,
            };
            let ufw = rule_args(FirewallTool::Ufw, unit, rule, add);
            let firewalld = rule_args(FirewallTool::Firewalld, unit, rule, add);
            let iptables = rule_args(FirewallTool::Iptables, unit, rule, add);
            let n = iptables.len() as int;
            &&& rule.text() == port + "/"@ + proto
            &&& add ==> ufw[0] == "allow"@ && ufw[1] == port + "/"@ + proto
            &&& !add ==> ufw[0] == "delete"@ && ufw[1] == "allow"@ && ufw[2] == port + "/"@ + proto
            &&& firewalld[0] == "--permanent"@ && firewalld[2] == port + "/"@ + proto
            &&& firewalld[1] == (if add {
                "--add-port"@
            } else {
                "--remove-port"@
            })
            &&& iptables[0] == (if add {
                "-I"@
            } else {
                "-D"@
            })
            &&& iptables[1] == "INPUT"@
            &&& iptables[n - 9] == "-p"@ && iptables[n - 8] == proto && iptables[n - 7] == "--dport="@ + port
                && iptables[n - 6] == "-j"@ && iptables[n - 5] == "ACCEPT"@
            &&& check_args(unit, rule)[0] == "-C"@ && check_args(unit, rule)[1] == "INPUT"@ && check_args(
                unit,
                rule,
            ).skip(2) == iptables.skip(n - 9)
        }),
{
    assert(check_args(unit, rule).skip(2) =~= iptables_rule(unit, rule));
    let iptables = rule_args(FirewallTool::Iptables, unit, rule, add);
    assert(iptables.skip(iptables.len() - 9) =~= iptables_rule(unit, rule));
}

/// A command that failed is told of with its code and what it said, without the blanks
/// around it. What it said in its output is told only where there is anything.
pub proof fn lemma_failure_is_told(program: Seq<char>, code: i64, stderr: Seq<char>, stdout: Seq<char>)
    ensures
        ({
            let head = program + " 退出码 "@ + addr::signed_decimal(code as int) + "："@ + text::trimmed(stderr);
            let told = failure_text(program, code, stderr, stdout);
            &&& (forall|i: int| 0 <= i < stdout.len() ==> text::is_white_space(#[trigger] stdout[i])) ==> told
                == head
            &&& !(forall|i: int| 0 <= i < stdout.len() ==> text::is_white_space(#[trigger] stdout[i])) ==> told
                == head + " / "@ + text::trimmed(stdout)
        }),
{
    let ends = text::lemma_trimmed_at_both_ends(stdout);
    if ends.0 < ends.1 {
        assert(!text::is_white_space(stdout[ends.0]));
    } else {
        assert forall|i: int| 0 <= i < stdout.len() implies text::is_white_space(#[trigger] stdout[i]) by {}
    }
}

} // verus!
