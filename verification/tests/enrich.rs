use novel_core::enrich::{enrich_done, enrich_step, EnrichAction, EnrichEvent, EnrichState};

#[test]
fn three_failures_in_a_row_give_up() {
    let mut s = EnrichState { failures: 0 };
    let (t, a) = enrich_step(s, EnrichEvent::Finished { ok: false, listener_gone: false });
    assert!(a == EnrichAction::Next);
    s = t;
    let (t, a) = enrich_step(s, EnrichEvent::Finished { ok: false, listener_gone: false });
    assert!(a == EnrichAction::Next);
    s = t;
    let (t, a) = enrich_step(s, EnrichEvent::Finished { ok: true, listener_gone: false });
    assert!(a == EnrichAction::Next);
    assert_eq!(t.failures, 0);
    s = t;
    for _ in 0..2 {
        let (t, a) = enrich_step(s, EnrichEvent::Finished { ok: false, listener_gone: false });
        assert!(a == EnrichAction::Next);
        s = t;
    }
    let (_, a) = enrich_step(s, EnrichEvent::Finished { ok: false, listener_gone: false });
    assert!(a == EnrichAction::GiveUp);
}

#[test]
fn a_cancelled_or_unheard_run_stops() {
    let s = EnrichState { failures: 2 };
    assert!(enrich_step(s, EnrichEvent::Cancelled).1 == EnrichAction::Stop);
    assert!(enrich_step(s, EnrichEvent::Finished { ok: false, listener_gone: true }).1 == EnrichAction::Stop);
    assert_eq!(enrich_done(4, true), 5);
    assert_eq!(enrich_done(4, false), 4);
}
