use paper_store::paper::{self, ApprRejReq, Paper, Status};
use paper_store::question::{self, Question};
use paper_store::world::World;

fn papers_world() -> World<Paper> {
    let width: u64 = 576460752303423488;
    let mut d0: Vec<u64> = Vec::new();
    for i in 0..32u64 {
        let end = if i == 31 { u64::MAX } else { (i + 1) * width - 1 };
        d0.push(end);
    }
    let d1: Vec<u64> = vec![0u64, u64::MAX];
    World::new(vec![d0, d1]).unwrap()
}

fn questions_world() -> World<Question> {
    let width: u64 = 1152921504606846976;
    let mut d0: Vec<u64> = Vec::new();
    for i in 0..16u64 {
        let end = if i == 15 { u64::MAX } else { (i + 1) * width - 1 };
        d0.push(end);
    }
    World::new(vec![d0]).unwrap()
}

fn paper_in(name: &str, info: &str) -> paper::In {
    paper::In { name: name.to_string(), info: info.to_string(), email: None }
}

fn question_in(name: &str, info: &str) -> question::In {
    question::In { name: name.to_string(), info: info.to_string(), email: None }
}

#[test]
fn new_question() {
    let mut w = questions_world();
    let question = question_in("Yjn024", "Hello, world!");

    assert!(question::new(&mut w, question).is_ok());

    let sel = w.select_all();
    let mut found = false;
    for mut h in sel.candidates(&w) {
        if let Ok(Question { name, info, email, .. }) = h.get(&w) {
            assert_eq!(name, "Yjn024");
            assert_eq!(info, "Hello, world!");
            assert!(email.is_none());
            found = true;
        }
    }
    assert!(found, "data not inserted");
}

#[test]
fn post_paper() {
    let mut w = papers_world();
    let paper = paper_in("Yjn024", "Hello, world!");

    assert!(paper::post(&mut w, paper).is_ok());

    let sel = w.select(1, 0);
    let mut found = false;
    for mut h in sel.candidates(&w) {
        if let Ok(Paper { name, info, email, status, .. }) = h.get(&w) {
            assert_eq!(name, "Yjn024");
            assert_eq!(info, "Hello, world!");
            assert!(email.is_none());
            assert_eq!(status, Status::Pending);
            found = true;
        }
    }
    assert!(found, "data not inserted");
}

#[test]
fn get_paper() {
    let mut w = papers_world();
    w.insert(Paper::from_in(paper_in("Yjn024", "Hello, world!")));

    assert!(paper::get(&w).is_err());

    let mut approved = Paper::from_in(paper_in("Yjn024", "Genshine Impact"));
    approved.status = Status::Approved;
    w.insert(approved);

    let got = paper::get(&w).unwrap();
    assert_eq!(got.name, "Yjn024");
    assert_eq!(got.info, "Genshine Impact");
    assert!(got.email.is_none());
}

#[test]
fn unprocessed_papers() {
    let mut w = papers_world();
    let mut approved = Paper::from_in(paper_in("Yjn024", "Genshine Impact"));
    approved.status = Status::Approved;
    w.insert(approved);
    w.insert(Paper::from_in(paper_in("Yjn024", "Hello, world!")));
    w.insert(Paper::from_in(paper_in("c191239", "Hello, world!")));

    let res = paper::unprocessed(&w);
    assert_eq!(res.len(), 2);
}

#[test]
fn approve_paper() {
    let mut w = papers_world();
    let paper = Paper::from_in(paper_in("Yjn024", "Genshine Impact"));
    let pid = paper.pid;
    w.insert(paper);

    assert!(paper::approve(&mut w, ApprRejReq { pid }).is_ok());

    let sel = w.select(0, pid).and(1, 1);
    let mut found = false;
    for mut h in sel.candidates(&w) {
        if let Ok(p) = h.get(&w) {
            assert_eq!(p.pid, pid);
            assert_eq!(p.status, Status::Approved);
            found = true;
        }
    }
    assert!(found);
}

#[test]
fn pending_then_approved_moves_record() {
    let mut w = papers_world();
    let a = Paper::from_in(paper_in("author", "a submission"));
    let pid = a.pid;
    assert!(w.try_insert(a).is_ok());

    let pending: Vec<u64> = w.select(1, 0).candidates(&w).iter().map(|h| h.id()).collect();
    assert_eq!(pending, vec![pid]);

    assert!(paper::approve(&mut w, ApprRejReq { pid }).is_ok());

    let approved: Vec<u64> = w.select(1, 1).candidates(&w).iter().map(|h| h.id()).collect();
    assert_eq!(approved, vec![pid]);
    assert_eq!(w.select(1, 0).candidates(&w).len(), 0);
}

#[test]
fn duplicate_submission_conflicts() {
    let mut w = papers_world();
    let first = Paper::from_in(paper_in("author", "identical body"));
    let pid = first.pid;
    assert!(w.try_insert(first).is_ok());

    let second = Paper::from_in(paper_in("author", "identical body"));
    assert_eq!(second.pid, pid);
    assert!(w.try_insert(second).is_err());

    assert_eq!(w.select(0, pid).candidates(&w).len(), 1);

    let via_post = paper::post(&mut w, paper_in("author", "identical body"));
    assert_eq!(via_post, Err(paper::Error::PidConflict));
}

#[test]
fn reject_destroys_record() {
    let mut w = papers_world();
    let a = Paper::from_in(paper_in("author", "to be rejected"));
    let pid = a.pid;
    w.insert(a);

    assert!(paper::reject(&mut w, ApprRejReq { pid }).is_ok());

    assert_eq!(w.select(0, pid).candidates(&w).len(), 0);
    assert_eq!(w.select(1, 0).candidates(&w).len(), 0);
    assert_eq!(paper::reject(&mut w, ApprRejReq { pid }), Err(paper::Error::NotFound));
}

#[test]
fn exclusive_lease_conflicts() {
    let mut w = papers_world();
    let a = Paper::from_in(paper_in("author", "leased"));
    let pid = a.pid;
    w.insert(a);

    let mut h1 = w.select(0, pid).candidates(&w).remove(0);
    let mut h2 = w.select(0, pid).candidates(&w).remove(0);

    let first = h1.get_mut(&mut w);
    assert!(first.is_ok());
    let second = h2.get_mut(&mut w);
    assert_eq!(second.err(), Some(paper_store::world::StoreError::Conflict));

    h1.release(&mut w);
    let mut h3 = w.select(0, pid).candidates(&w).remove(0);
    assert!(h3.get_mut(&mut w).is_ok());
}

#[test]
fn destroy_twice_is_not_found() {
    let mut w = papers_world();
    let a = Paper::from_in(paper_in("author", "doomed"));
    let pid = a.pid;
    w.insert(a);

    let h1 = w.select(0, pid).candidates(&w).remove(0);
    let h2 = w.select(0, pid).candidates(&w).remove(0);

    assert!(h1.destroy(&mut w).is_ok());
    assert_eq!(h2.destroy(&mut w), Err(paper_store::world::StoreError::NotFound));
    assert_eq!(w.select(0, pid).candidates(&w).len(), 0);
}

#[test]
fn question_conflict_reported() {
    let mut w = questions_world();
    assert!(question::new(&mut w, question_in("asker", "why?")).is_ok());
    let again = question::new(&mut w, question_in("asker", "why?"));
    assert_eq!(again, Err(question::Error::PidConflict));
}

#[test]
fn error_mappings() {
    assert_eq!(paper::Error::Db.http_status(), 500);
    assert_eq!(paper::Error::PidConflict.http_status(), 409);
    assert_eq!(paper::Error::NoPaper.http_status(), 404);
    assert_eq!(paper::Error::NotFound.http_status(), 404);
    assert_eq!(paper::Error::Db.message(), "internal database error");
    assert_eq!(paper::Error::PidConflict.message(), "pid conflicted");
    assert_eq!(paper::Error::NoPaper.message(), "paper repository is empty");
    assert_eq!(paper::Error::NotFound.message(), "requiring paper not found");
    assert_eq!(question::Error::Db.http_status(), 500);
    assert_eq!(question::Error::PidConflict.http_status(), 409);
    assert_eq!(question::Error::Db.message(), "internal database error");
    assert_eq!(question::Error::PidConflict.message(), "pid conflicted");
}
