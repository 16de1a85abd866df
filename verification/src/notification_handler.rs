//! Notifications that services send over their notification socket (`sd_notify`):
//! newline-terminated `KEY=VALUE` lines.
use vstd::prelude::*;

use crate::services::Service;
use crate::text::{split_on, split_to_vecs, string_of, to_chars};

verus! {

/// The name of a notification line: the text before its first `=`.
pub open spec fn note_key(line: Seq<char>) -> Seq<char> {
    split_on(line, '=')[0]
}

/// The value of a notification line: the text between its first and second `=`.
pub open spec fn note_value(line: Seq<char>) -> Seq<char> {
    split_on(line, '=')[1]
}

/// A line that the handler accepts: a `STATUS` line carries a value.
pub open spec fn note_ok(line: Seq<char>) -> bool {
    note_key(line) == "STATUS"@ ==> split_on(line, '=').len() >= 2
}

/// The status messages that `lines` carry, in order.
pub open spec fn status_values(lines: Seq<Seq<char>>) -> Seq<Seq<char>>
    decreases lines.len(),
{
    if lines.len() == 0 {
        Seq::empty()
    } else {
        let rest = status_values(lines.drop_last());
        if note_key(lines.last()) == "STATUS"@ {
            rest.push(note_value(lines.last()))
        } else {
            rest
        }
    }
}

/// Some line of `lines` is a `READY` line.
pub open spec fn any_ready(lines: Seq<Seq<char>>) -> bool {
    exists|i: int| 0 <= i < lines.len() && #[trigger] note_key(lines[i]) == "READY"@
}

/// `a` and `b` agree on everything but the notification state.
pub open spec fn same_but_notifications(a: Service, b: Service) -> bool {
    &&& a.pid == b.pid
    &&& a.process_group == b.process_group
    &&& a.service_config == b.service_config
    &&& a.status == b.status
    &&& a.socket_names == b.socket_names
    &&& a.runtime_info == b.runtime_info
    &&& a.stdout_dup == b.stdout_dup
    &&& a.stderr_dup == b.stderr_dup
}

/// Handles one notification line: `STATUS=...` adds the value to the status messages,
/// `READY=...` marks the service ready, anything else is ignored.
pub fn handle_notification_message(msg: &String, srvc: &mut Service, name: &String)
    requires
        note_ok(msg@),
    ensures
        same_but_notifications(*final(srvc), *old(srvc)),
        final(srvc).notifications_buffer == old(srvc).notifications_buffer,
        final(srvc).status_msgs@.map_values(|s: String| s@) == if note_key(msg@) == "STATUS"@ {
            old(srvc).status_msgs@.map_values(|s: String| s@).push(note_value(msg@))
        } else {
            old(srvc).status_msgs@.map_values(|s: String| s@)
        },
        final(srvc).signaled_ready == (old(srvc).signaled_ready || note_key(msg@) == "READY"@),
{
    let chars = to_chars(msg.as_str());
    let split = split_to_vecs(&chars, '=');
    proof { crate::text::lemma_split_nonempty(chars@, '='); }
    let status = to_chars("STATUS");
    let ready = to_chars("READY");
    if crate::text::chars_eq(&split[0], &status) {
        let v = string_of(&split[1]);
        let ghost before = srvc.status_msgs@;
        srvc.status_msgs.push(v);
        proof {
            assert(srvc.status_msgs@.map_values(|s: String| s@) =~= before.map_values(|s: String| s@).push(
                note_value(msg@),
            ));
            assert(split@[0]@ == note_key(msg@));
            assert(note_key(msg@) == "STATUS"@);
            reveal_strlit("STATUS");
            reveal_strlit("READY");
            assert("STATUS"@.len() != "READY"@.len());
            assert(note_key(msg@) != "READY"@);
        }
    } else if crate::text::chars_eq(&split[0], &ready) {
        srvc.signaled_ready = true;
    }
}

/// The complete lines of `buffer`: all but the text after its last newline.
pub open spec fn complete_lines(buffer: Seq<char>) -> Seq<Seq<char>> {
    split_on(buffer, '\n').drop_last()
}

/// The text after the last newline of `buffer`.
pub open spec fn incomplete_rest(buffer: Seq<char>) -> Seq<char> {
    split_on(buffer, '\n').last()
}

/// Handles every complete line in the service's notification buffer, in order, and
/// keeps only the text after the last newline in the buffer.
pub fn handle_notifications_from_buffer(srvc: &mut Service, name: &String)
    requires
        forall|i: int| 0 <= i < complete_lines(old(srvc).notifications_buffer@).len() ==> note_ok(
            #[trigger] complete_lines(old(srvc).notifications_buffer@)[i],
        ),
    ensures
        same_but_notifications(*final(srvc), *old(srvc)),
        final(srvc).notifications_buffer@ == incomplete_rest(old(srvc).notifications_buffer@),
        final(srvc).status_msgs@.map_values(|s: String| s@) == old(srvc).status_msgs@.map_values(
            |s: String| s@,
        ) + status_values(complete_lines(old(srvc).notifications_buffer@)),
        final(srvc).signaled_ready == (old(srvc).signaled_ready || any_ready(
            complete_lines(old(srvc).notifications_buffer@),
        )),
{
    let ghost buf = srvc.notifications_buffer@;
    let ghost lines = complete_lines(buf);
    let ghost msgs0 = srvc.status_msgs@.map_values(|s: String| s@);
    let ghost ready0 = srvc.signaled_ready;
    let chars = to_chars(srvc.notifications_buffer.as_str());
    let pieces = split_to_vecs(&chars, '\n');
    proof { crate::text::lemma_split_nonempty(chars@, '\n'); }
    let n = pieces.len() - 1;
    let mut i: usize = 0;
    proof {
        assert(lines.take(0) =~= Seq::<Seq<char>>::empty());
    }
    while i < n
        invariant
            n + 1 == pieces@.len(),
            pieces@.len() == split_on(buf, '\n').len(),
            i <= n,
            lines == complete_lines(buf),
            lines.len() == n,
            forall|k: int| 0 <= k < pieces@.len() ==> #[trigger] pieces@[k]@ == split_on(buf, '\n')[k],
            forall|k: int| 0 <= k < lines.len() ==> note_ok(#[trigger] lines[k]),
            same_but_notifications(*srvc, *old(srvc)),
            srvc.notifications_buffer == old(srvc).notifications_buffer,
            buf == old(srvc).notifications_buffer@,
            msgs0 == old(srvc).status_msgs@.map_values(|s: String| s@),
            ready0 == old(srvc).signaled_ready,
            srvc.status_msgs@.map_values(|s: String| s@) == msgs0 + status_values(lines.take(i as int)),
            srvc.signaled_ready == (ready0 || any_ready(lines.take(i as int))),
        decreases n - i,
    {
        let line = string_of(&pieces[i]);
        proof {
            assert(line@ == lines[i as int]);
            assert(note_ok(lines[i as int]));
            let t = lines.take(i + 1);
            assert(t.drop_last() =~= lines.take(i as int));
            assert(t.last() == lines[i as int]);
        }
        let ghost before_msgs = srvc.status_msgs@.map_values(|s: String| s@);
        handle_notification_message(&line, srvc, name);
        proof {
            let t = lines.take(i + 1);
            assert(msgs0 + status_values(t) =~= if note_key(lines[i as int]) == "STATUS"@ {
                (msgs0 + status_values(lines.take(i as int))).push(note_value(lines[i as int]))
            } else {
                msgs0 + status_values(lines.take(i as int))
            });
            assert(any_ready(t) == (any_ready(lines.take(i as int)) || note_key(lines[i as int]) == "READY"@)) by {
                if any_ready(t) {
                    let j = choose|j: int| 0 <= j < t.len() && #[trigger] note_key(t[j]) == "READY"@;
                    if j < i {
                        assert(lines.take(i as int)[j] == t[j]);
                    }
                }
                if any_ready(lines.take(i as int)) {
                    let j = choose|j: int| 0 <= j < i && #[trigger] note_key(lines.take(i as int)[j]) == "READY"@;
                    assert(t[j] == lines.take(i as int)[j]);
                }
                if note_key(lines[i as int]) == "READY"@ {
                    assert(t[i as int] == lines[i as int]);
                }
            }
        }
        i = i + 1;
    }
    srvc.notifications_buffer = string_of(&pieces[n]);
    proof {
        assert(lines.take(n as int) =~= lines);
    }
}

/// Whether the notification line `line` can be handled (see `note_ok`).
pub fn note_line_ok(line: &Vec<char>) -> (res: bool)
    ensures
        res == note_ok(line@),
{
    let split = split_to_vecs(line, '=');
    proof { crate::text::lemma_split_nonempty(line@, '='); }
    let status = to_chars("STATUS");
    !crate::text::chars_eq(&split[0], &status) || split.len() >= 2
}

/// Whether every complete line of the service's notification buffer can be handled (see
/// `note_ok`): a `STATUS` line without a value cannot.
pub fn buffer_notes_ok(srvc: &Service) -> (res: bool)
    ensures
        res == forall|i: int| 0 <= i < complete_lines(srvc.notifications_buffer@).len() ==> note_ok(
            #[trigger] complete_lines(srvc.notifications_buffer@)[i],
        ),
{
    let ghost buf = srvc.notifications_buffer@;
    let chars = to_chars(srvc.notifications_buffer.as_str());
    let pieces = split_to_vecs(&chars, '\n');
    proof { crate::text::lemma_split_nonempty(chars@, '\n'); }
    let n = pieces.len() - 1;
    let mut i: usize = 0;
    while i < n
        invariant
            n + 1 == pieces@.len(),
            pieces@.len() == split_on(buf, '\n').len(),
            i <= n,
            buf == srvc.notifications_buffer@,
            forall|k: int| 0 <= k < pieces@.len() ==> #[trigger] pieces@[k]@ == split_on(buf, '\n')[k],
            forall|k: int| 0 <= k < i ==> note_ok(#[trigger] complete_lines(buf)[k]),
        decreases n - i,
    {
        proof {
            assert(pieces@[i as int]@ == complete_lines(buf)[i as int]);
        }
        if !note_line_ok(&pieces[i]) {
            return false;
        }
        i = i + 1;
    }
    true
}

/// The path of the notification socket of the service `name` in the directory `dir`:
/// the file `<name>.notifiy_socket` there.
pub fn notification_socket_path(dir: &String, name: &String) -> (res: String)
    ensures
        res@ == crate::cgroups::join_path(dir@, name@ + ".notifiy_socket"@),
{
    let file = crate::text::concat_strs(name.as_str(), ".notifiy_socket");
    crate::cgroups::join(dir, file.as_str())
}

} // verus!
