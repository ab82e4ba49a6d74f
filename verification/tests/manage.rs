use rtcp::manage::ManageError;
use rtcp::manage::RTCPConnection;
use rtcp::manage::RTCPManager;

fn connection(id: Option<&str>, income: u32, outcome: u32) -> RTCPConnection<u32> {
    RTCPConnection {
        income_tcp: income,
        outcome_tcp: outcome,
        connect_id: id.map(|s| s.to_string()),
    }
}

#[test]
fn a_connection_is_found_by_its_id() {
    let mut table: RTCPManager<u32> = RTCPManager::new();
    assert_eq!(table.len(), 0);
    assert_eq!(table.add_connection(connection(Some("a"), 1, 2)), Ok(()));
    assert_eq!(table.add_connection(connection(Some("b"), 3, 4)), Ok(()));
    assert_eq!(table.len(), 2);
    let a = table.get_connection(&Some("a".to_string())).unwrap().unwrap();
    assert_eq!((a.income_tcp, a.outcome_tcp), (1, 2));
    let b = table.get_connection(&Some("b".to_string())).unwrap().unwrap();
    assert_eq!((b.income_tcp, b.outcome_tcp), (3, 4));
    assert!(table.get_connection(&Some("c".to_string())).unwrap().is_none());
}

#[test]
fn a_second_connection_with_the_same_id_takes_the_place_of_the_first() {
    let mut table: RTCPManager<u32> = RTCPManager::new();
    assert_eq!(table.add_connection(connection(Some("a"), 1, 2)), Ok(()));
    assert_eq!(table.add_connection(connection(Some("a"), 5, 6)), Ok(()));
    assert_eq!(table.len(), 1);
    let a = table.get_connection(&Some("a".to_string())).unwrap().unwrap();
    assert_eq!((a.income_tcp, a.outcome_tcp), (5, 6));
}

#[test]
fn without_an_id_nothing_is_done() {
    let mut table: RTCPManager<u32> = RTCPManager::new();
    assert_eq!(
        table.add_connection(connection(None, 1, 2)),
        Err(ManageError::NoConnectId)
    );
    assert_eq!(table.len(), 0);
    assert_eq!(table.add_connection(connection(Some("a"), 1, 2)), Ok(()));
    assert_eq!(table.remove_connection(None), Err(ManageError::NoConnectId));
    assert_eq!(table.len(), 1);
    assert_eq!(
        table.get_connection(&None).map(|c| c.is_some()),
        Err(ManageError::NoConnectId)
    );
}

#[test]
fn a_removed_connection_is_gone_and_the_others_stay() {
    let mut table: RTCPManager<u32> = RTCPManager::new();
    for (i, id) in ["a", "b", "c"].iter().enumerate() {
        assert_eq!(
            table.add_connection(connection(Some(id), i as u32, 0)),
            Ok(())
        );
    }
    assert_eq!(table.remove_connection(Some("b".to_string())), Ok(()));
    assert_eq!(table.len(), 2);
    assert!(table.get_connection(&Some("b".to_string())).unwrap().is_none());
    assert_eq!(
        table.get_connection(&Some("a".to_string())).unwrap().unwrap().income_tcp,
        0
    );
    assert_eq!(
        table.get_connection(&Some("c".to_string())).unwrap().unwrap().income_tcp,
        2
    );
    assert_eq!(table.remove_connection(Some("zzz".to_string())), Ok(()));
    assert_eq!(table.len(), 2);
    assert_eq!(table.add_connection(connection(Some(""), 9, 9)), Ok(()));
    assert_eq!(
        table.get_connection(&Some(String::new())).unwrap().unwrap().income_tcp,
        9
    );
}
