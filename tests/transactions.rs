use silly_rusty_kv::command::{
    get_value_from_buffer, get_value_from_mutations, get_value_from_mutations_ref,
    parse_buffer_to_mutations, Command, CommandOutput, DeleteCommand, GetCommand, Mutation,
    PutCommand,
};
use silly_rusty_kv::execute::{execute_command, ExecError};
use silly_rusty_kv::hash_storage::HashStorage;
use silly_rusty_kv::wal::Wal;

fn put(k: &str, v: &str) -> Command {
    Command::Put(PutCommand(k.into(), v.into()))
}

fn get(k: &str) -> Command {
    Command::Get(GetCommand(k.into()))
}

fn begin(engine: &mut HashStorage, wal: &mut Wal) -> String {
    match execute_command(engine, wal, Command::Begin, None) {
        Ok(CommandOutput::Begin(tid)) => tid,
        other => panic!("unexpected {:?}", other),
    }
}

#[test]
fn transaction_rollback() {
    let mut engine = HashStorage::new();
    let mut wal = Wal::new();
    assert_eq!(execute_command(&mut engine, &mut wal, put("A", "1"), None), Ok(CommandOutput::Put));
    let tid = begin(&mut engine, &mut wal);
    let t = Some(tid.as_str());
    assert_eq!(execute_command(&mut engine, &mut wal, put("A", "2"), t), Ok(CommandOutput::Put));
    assert_eq!(execute_command(&mut engine, &mut wal, get("A"), t), Ok(CommandOutput::Found("2".into())));
    assert_eq!(execute_command(&mut engine, &mut wal, get("A"), None), Ok(CommandOutput::Found("1".into())));
    assert_eq!(execute_command(&mut engine, &mut wal, Command::Rollback, t), Ok(CommandOutput::Rollback));
    assert_eq!(execute_command(&mut engine, &mut wal, get("A"), None), Ok(CommandOutput::Found("1".into())));
    assert_eq!(
        execute_command(&mut engine, &mut wal, Command::Rollback, t),
        Err(ExecError::UnknownTransaction)
    );
}

#[test]
fn transaction_commit() {
    let mut engine = HashStorage::new();
    let mut wal = Wal::new();
    let tid = begin(&mut engine, &mut wal);
    let t = Some(tid.as_str());
    assert_eq!(execute_command(&mut engine, &mut wal, put("B", "x"), t), Ok(CommandOutput::Put));
    assert_eq!(execute_command(&mut engine, &mut wal, put("B", "y"), t), Ok(CommandOutput::Put));
    assert_eq!(execute_command(&mut engine, &mut wal, get("B"), None), Ok(CommandOutput::NotFound("B".into())));
    assert_eq!(execute_command(&mut engine, &mut wal, Command::Commit, t), Ok(CommandOutput::Commit));
    assert_eq!(execute_command(&mut engine, &mut wal, get("B"), None), Ok(CommandOutput::Found("y".into())));
}

#[test]
fn staged_delete_hides_a_stored_key() {
    let mut engine = HashStorage::new();
    let mut wal = Wal::new();
    execute_command(&mut engine, &mut wal, put("C", "1"), None).unwrap();
    let tid = begin(&mut engine, &mut wal);
    let t = Some(tid.as_str());
    let del = Command::Delete(DeleteCommand("C".into()));
    assert_eq!(execute_command(&mut engine, &mut wal, del, t), Ok(CommandOutput::Delete));
    assert_eq!(execute_command(&mut engine, &mut wal, get("C"), t), Ok(CommandOutput::NotFound("C".into())));
    assert_eq!(execute_command(&mut engine, &mut wal, get("C"), None), Ok(CommandOutput::Found("1".into())));
    execute_command(&mut engine, &mut wal, Command::Commit, t).unwrap();
    assert_eq!(execute_command(&mut engine, &mut wal, get("C"), None), Ok(CommandOutput::NotFound("C".into())));
}

#[test]
fn commit_and_rollback_need_an_open_transaction() {
    let mut engine = HashStorage::new();
    let mut wal = Wal::new();
    assert_eq!(execute_command(&mut engine, &mut wal, Command::Commit, None), Err(ExecError::UnknownTransaction));
    assert_eq!(execute_command(&mut engine, &mut wal, Command::Rollback, None), Err(ExecError::UnknownTransaction));
    assert_eq!(
        execute_command(&mut engine, &mut wal, put("k", "v"), Some("nope")),
        Err(ExecError::UnknownTransaction)
    );
    assert_eq!(execute_command(&mut engine, &mut wal, Command::Exit, None), Ok(CommandOutput::Exit));
}

#[test]
fn commit_reports_an_oversized_put_and_applies_the_rest() {
    let mut engine = HashStorage::new();
    let mut wal = Wal::new();
    let tid = begin(&mut engine, &mut wal);
    let t = Some(tid.as_str());
    let big = "v".repeat(5000);
    execute_command(&mut engine, &mut wal, put("big", &big), t).unwrap();
    execute_command(&mut engine, &mut wal, put("small", "s"), t).unwrap();
    assert_eq!(execute_command(&mut engine, &mut wal, Command::Commit, t), Err(ExecError::OversizedRecord));
    assert_eq!(execute_command(&mut engine, &mut wal, get("small"), None), Ok(CommandOutput::Found("s".into())));
    assert_eq!(execute_command(&mut engine, &mut wal, get("big"), None), Ok(CommandOutput::NotFound("big".into())));
}

#[test]
fn transaction_ids_are_fresh() {
    let mut wal = Wal::new();
    let a = wal.begin().unwrap();
    let b = wal.begin().unwrap();
    assert_ne!(a, b);
    assert_eq!(a.len(), 36);
    assert_eq!(wal.mutate(&a, Mutation::Put(PutCommand("k".into(), "v".into()))), Ok(()));
    assert_eq!(wal.get(&a, &GetCommand("k".into())), Some(Some("v".to_string())));
    assert_eq!(wal.get(&b, &GetCommand("k".into())), None);
    let ms = wal.retrieve_mutations(&a).unwrap();
    assert_eq!(ms, vec![Mutation::Put(PutCommand("k".into(), "v".into()))]);
    assert_eq!(wal.retrieve_mutations(&a), None);
    assert_eq!(wal.mutate(&a, Mutation::Delete(DeleteCommand("k".into()))), Err(()));
}

#[test]
fn wal_reads_newest_mutation_first() {
    let mut wal = Wal::new();
    assert!(wal.begin_with("t".to_string()));
    assert!(!wal.begin_with("t".to_string()));
    wal.mutate("t", Mutation::Put(PutCommand("k".into(), "1".into()))).unwrap();
    wal.mutate("t", Mutation::Delete(DeleteCommand("k".into()))).unwrap();
    assert_eq!(wal.get("t", &GetCommand("k".into())), Some(None));
    wal.mutate("t", Mutation::Put(PutCommand("k".into(), "2".into()))).unwrap();
    assert_eq!(wal.get("t", &GetCommand("k".into())), Some(Some("2".to_string())));
    assert_eq!(wal.get("t", &GetCommand("other".into())), None);
}

#[test]
fn mutation_bytes_round_trip() {
    let put = Mutation::Put(PutCommand("key".into(), "välue".into()));
    let del = Mutation::Delete(DeleteCommand("key".into()));
    assert_eq!(put.byte_len(), 4 + 3 + 6);
    assert_eq!(del.byte_len(), 2 + 3);
    let mut bytes = put.clone().into_bytes();
    assert_eq!(&bytes[..4], &[2, 3, 6, 0]);
    bytes.extend(del.clone().into_bytes());
    let muts = parse_buffer_to_mutations(&bytes).unwrap();
    assert_eq!(muts, vec![put.clone(), del.clone()]);
    assert_eq!(get_value_from_buffer(&bytes, "key"), Ok(Some(None)));
    assert_eq!(get_value_from_buffer(&bytes, "other"), Ok(None));
    assert_eq!(get_value_from_buffer(&bytes[..put.byte_len()], "key"), Ok(Some(Some("välue".to_string()))));
    assert_eq!(get_value_from_mutations_ref(&muts, "key"), None);
    assert_eq!(get_value_from_mutations(vec![del, put], "key"), Some("välue".to_string()));
}

#[test]
fn mutation_parse_stops_at_bad_bytes() {
    let mut bytes = Mutation::Put(PutCommand("a".into(), "b".into())).into_bytes();
    bytes.extend([9, 9, 9]);
    let muts = parse_buffer_to_mutations(&bytes).unwrap();
    assert_eq!(muts.len(), 1);
    let invalid_text = vec![1u8, 1, 0xff];
    assert_eq!(parse_buffer_to_mutations(&invalid_text).unwrap(), vec![]);
}
