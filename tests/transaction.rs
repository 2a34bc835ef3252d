use hardlink_dups::{next_link_step, FileKind, FileMeta, LinkEnd, LinkEvent, LinkStep};

fn run(events: &[LinkEvent]) -> LinkStep {
    let mut step = LinkStep::Remove;
    for e in events {
        step = next_link_step(step, *e);
    }
    step
}

#[test]
fn transaction_links_then_refreshes() {
    let md = FileMeta { kind: FileKind::File, size: 4, dev: 1, ino: 9 };
    let end = run(&[LinkEvent::Done(true), LinkEvent::Done(true), LinkEvent::Read(Some(md))]);
    assert_eq!(end, LinkStep::Finished(LinkEnd::Merged(md)));
}

#[test]
fn transaction_falls_back_to_copy() {
    assert_eq!(next_link_step(LinkStep::Link, LinkEvent::Done(false)), LinkStep::Copy);
    let end = run(&[LinkEvent::Done(true), LinkEvent::Done(false), LinkEvent::Done(true)]);
    assert_eq!(end, LinkStep::Finished(LinkEnd::CopiedInstead));
}

#[test]
fn transaction_reports_double_failure() {
    let end = run(&[LinkEvent::Done(true), LinkEvent::Done(false), LinkEvent::Done(false)]);
    assert_eq!(end, LinkStep::Finished(LinkEnd::LinkAndCopyFailed));
}

#[test]
fn transaction_stops_when_removal_fails() {
    assert_eq!(run(&[LinkEvent::Done(false)]), LinkStep::Finished(LinkEnd::RemoveFailed));
}

#[test]
fn transaction_refresh_failure() {
    let end = run(&[LinkEvent::Done(true), LinkEvent::Done(true), LinkEvent::Read(None)]);
    assert_eq!(end, LinkStep::Finished(LinkEnd::RefreshFailed));
}
