//! What a configuration file says, as far as it can be read at all. The master must
//! find its state and its log whatever the file is like: a file that no worker could
//! start with still tells where they are.

use vstd::prelude::*;

use crate::enroll;
use crate::enroll::{log_target, windows_service_name, LogTarget};
use crate::supervisor;
use crate::supervisor::named_dir;
use crate::text;
use crate::text::owned;

verus! {

/// The text that a JSON object holds under a name; nothing if the text is no JSON,
/// no object, or holds no text under that name.
pub uninterp spec fn json_text(text: Seq<char>, name: Seq<char>) -> Option<Seq<char>>;

/// `serde_json::from_str`, and `get` and `as_str` on the value.
///
/// Believed: what comes out depends on the text and the name alone.
#[verifier::external_body]
pub(crate) fn json_field(text: &str, name: &str) -> (value: Option<String>)
    ensures
        text_of(value) == json_text(text@, name@),
{
    let value: serde_json::Value = serde_json::from_str(text).ok()?;
    value.get(name)?.as_str().map(String::from)
}

/// The texts that the members of a list in a JSON object hold under a name; nothing
/// if there is no such list. A member without such a text stands as one that is
/// missing.
pub uninterp spec fn json_texts(text: Seq<char>, list: Seq<char>, name: Seq<char>) -> Option<
    Seq<Option<Seq<char>>>,
>;

/// `serde_json::from_str`, `get` and `as_array` on the value, and `get` and `as_str`
/// on each member.
///
/// Believed: what comes out depends on the text and the names alone.
#[verifier::external_body]
fn json_members(text: &str, list: &str, name: &str) -> (members: Option<Vec<Option<String>>>)
    ensures
        members_of(members) == json_texts(text@, list@, name@),
{
    let value: serde_json::Value = serde_json::from_str(text).ok()?;
    let members = value.get(list)?.as_array()?;
    Some(members.iter().map(|m| m.get(name).and_then(|v| v.as_str()).map(String::from)).collect())
}

/// A text that may be absent, by its characters.
pub open spec fn text_of(value: Option<String>) -> Option<Seq<char>> {
    match value {
        Some(v) => Some(v@),
        None => None,
    }
}

/// A text that may be absent, by its characters.
pub open spec fn str_of(value: Option<&str>) -> Option<Seq<char>> {
    match value {
        Some(v) => Some(v@),
        None => None,
    }
}

/// A list that may be absent, by the characters of its members.
pub open spec fn members_of(members: Option<Vec<Option<String>>>) -> Option<Seq<Option<Seq<char>>>> {
    match members {
        Some(list) => Some(list@.map_values(|m: Option<String>| text_of(m))),
        None => None,
    }
}

/// A text that may be absent, borrowed.
pub(crate) fn as_text(value: &Option<String>) -> (text: Option<&str>)
    ensures
        str_of(text) == text_of(*value),
{
    match value {
        Some(v) => Some(v.as_str()),
        None => None,
    }
}

/// The directory of the node's state, if the configuration names one. An empty text
/// names none.
pub fn data_dir_in(text: &str) -> (dir: Option<String>)
    ensures
        text_of(dir) == supervisor::named(json_text(text@, "dataDir"@)),
{
    let field = json_field(text, "dataDir");
    match named_dir(as_text(&field)) {
        Some(d) => Some(owned(d)),
        None => None,
    }
}

/// Where the log of the master goes.
pub open spec fn master_target(
    explicit: Option<Seq<char>>,
    log_file: Option<Seq<char>>,
    as_service: bool,
    data_dir: Option<Seq<char>>,
) -> TargetView {
    if explicit is Some {
        TargetView::File(explicit->0)
    } else if supervisor::named(log_file) is Some {
        TargetView::File(log_file->0)
    } else if as_service {
        TargetView::ServiceFile(supervisor::named(data_dir))
    } else {
        TargetView::Console
    }
}

/// Where a log goes, as values.
pub ghost enum TargetView {
    File(Seq<char>),
    ServiceFile(Option<Seq<char>>),
    Console,
}

/// Where a log goes, as values.
pub open spec fn target_view(target: LogTarget) -> TargetView {
    match target {
        LogTarget::File(path) => TargetView::File(path@),
        LogTarget::ServiceFile(dir) => TargetView::ServiceFile(text_of(dir)),
        LogTarget::Console => TargetView::Console,
    }
}

/// Where the log of the master goes, out of what its configuration says: a path that
/// was asked for comes first, then that of the configuration, then the file of the
/// service, then the console alone. An empty text names no path.
pub fn master_log_target_of(
    explicit: Option<&str>,
    log_file: Option<&str>,
    as_service: bool,
    data_dir: Option<&str>,
) -> (target: LogTarget)
    ensures
        target_view(target) == master_target(
            str_of(explicit),
            str_of(log_file),
            as_service,
            str_of(data_dir),
        ),
{
    let dir = match named_dir(data_dir) {
        Some(d) => d,
        None => "",
    };
    proof {
        reveal_strlit("");
    }
    log_target(explicit, named_dir(log_file), as_service, dir)
}

/// Where the log of the master goes, out of its configuration file.
pub fn master_log_target(explicit: Option<&str>, text: &str, as_service: bool) -> (target: LogTarget)
    ensures
        target_view(target) == master_target(
            str_of(explicit),
            json_text(text@, "logFile"@),
            as_service,
            json_text(text@, "dataDir"@),
        ),
{
    let log_file = json_field(text, "logFile");
    let data_dir = json_field(text, "dataDir");
    master_log_target_of(explicit, as_text(&log_file), as_service, as_text(&data_dir))
}

/// The texts that are there, in order.
pub open spec fn present_texts(members: Seq<Option<Seq<char>>>) -> Seq<Seq<char>>
    decreases members.len(),
{
    if members.len() == 0 {
        Seq::empty()
    } else {
        let before = present_texts(members.drop_last());
        match members.last() {
            Some(name) => before.push(name),
            None => before,
        }
    }
}

/// The names of the networks in a configuration; none where there is no list.
pub open spec fn network_names(members: Option<Seq<Option<Seq<char>>>>) -> Seq<Seq<char>> {
    match members {
        Some(list) => present_texts(list),
        None => Seq::empty(),
    }
}

/// The names of the networks, out of the members of a list.
pub fn listed_networks(members: Option<Vec<Option<String>>>) -> (names: Vec<String>)
    ensures
        text::texts(names@) == network_names(members_of(members)),
{
    let mut names: Vec<String> = Vec::new();
    assert(text::texts(names@) =~= Seq::empty());
    if let Some(list) = members {
        let ghost all = list@.map_values(|m: Option<String>| text_of(m));
        let mut i: usize = 0;
        assert(all.take(0) =~= Seq::empty());
        while i < list.len()
            invariant
                i <= list@.len(),
                all == list@.map_values(|m: Option<String>| text_of(m)),
                text::texts(names@) == present_texts(all.take(i as int)),
            decreases list@.len() - i,
        {
            let ghost before = text::texts(names@);
            assert(all.take(i + 1).drop_last() =~= all.take(i as int));
            assert(all.take(i + 1).last() == text_of(list@[i as int]));
            if let Some(name) = &list[i] {
                names.push(owned(name.as_str()));
                assert(text::texts(names@) =~= before.push(name@));
            }
            i += 1;
        }
        assert(all.take(i as int) =~= all);
    }
    names
}

/// The name of the Windows service for a configuration file.
pub fn windows_service_name_in(text: &str) -> (name: String)
    ensures
        name@ == enroll::service_name_of(
            network_names(json_texts(text@, "networks"@, "network"@)),
        ),
{
    let names = listed_networks(json_members(text, "networks", "network"));
    windows_service_name(&names)
}

/// The log goes where it was asked to go, else where the configuration says, else to the
/// file of the service where there is one, and else to the console. An empty text of the
/// configuration says nothing.
pub proof fn lemma_log_goes_where_it_is_told(
    explicit: Option<Seq<char>>,
    log_file: Option<Seq<char>>,
    as_service: bool,
    data_dir: Option<Seq<char>>,
)
    ensures
        ({
            let target = master_target(explicit, log_file, as_service, data_dir);
            let says = log_file matches Some(path) && path.len() > 0;
            &&& explicit matches Some(path) ==> target == TargetView::File(path)
            &&& explicit is None && says ==> target == TargetView::File(log_file->0)
            &&& explicit is None && !says && !as_service ==> target == TargetView::Console
            &&& explicit is None && !says && as_service ==> target is ServiceFile
            &&& target matches TargetView::ServiceFile(dir) ==> (dir is Some <==> (data_dir matches Some(d)
                && d.len() > 0)) && (dir is Some ==> dir == data_dir)
        }),
{
}

/// The names of the networks come in the order of the list; an entry without a name is
/// passed over.
pub proof fn lemma_names_in_order(a: Seq<Option<Seq<char>>>, b: Seq<Option<Seq<char>>>, name: Seq<char>)
    ensures
        network_names(None) == Seq::<Seq<char>>::empty(),
        network_names(Some(a + b)) == network_names(Some(a)) + network_names(Some(b)),
        network_names(Some(seq![Some(name)])) == seq![name],
        network_names(Some(seq![None::<Seq<char>>])) == Seq::<Seq<char>>::empty(),
    decreases b.len(),
{
    let one = seq![Some(name)];
    assert(one.drop_last() =~= Seq::empty());
    assert(present_texts(one.drop_last()) == Seq::<Seq<char>>::empty());
    assert(Seq::<Seq<char>>::empty().push(name) =~= seq![name]);
    let gap = seq![None::<Seq<char>>];
    assert(gap.drop_last() =~= Seq::empty());
    if b.len() == 0 {
        assert(a + b =~= a);
        assert(present_texts(a) + present_texts(b) =~= present_texts(a));
    } else {
        lemma_names_in_order(a, b.drop_last(), name);
        assert((a + b).drop_last() =~= a + b.drop_last());
        assert((a + b).last() == b.last());
        assert(present_texts(a + b) =~= present_texts(a) + present_texts(b));
    }
}

} // verus!
