use consensus::committee::{Address, Authority, Committee, Host};
use consensus::crypto::PublicKey;
use consensus::leader::LeaderElector;
use consensus::schedule::{generate_schedule, test_generate_schedule_fairness};

#[test]
fn repeatedly_test_generate_schedule_fairness() {
    // Networks of up to 200 nodes.
    for i in 1..200 {
        assert!(test_generate_schedule_fairness(i));
    }
}

#[test]
fn schedule_of_four_nodes() {
    assert_eq!(generate_schedule(4), vec![0, 1, 2, 3, 0, 2, 0, 3, 1, 3, 2, 1]);
}

#[test]
fn schedule_of_small_networks() {
    assert_eq!(generate_schedule(0), Vec::<usize>::new());
    assert_eq!(generate_schedule(1), Vec::<usize>::new());
    assert_eq!(generate_schedule(2), vec![0, 1]);
    assert_eq!(generate_schedule(3), vec![0, 1, 2, 0, 2, 1]);
}

#[test]
fn schedule_turns_and_successions() {
    for n in 2..30usize {
        let s = generate_schedule(n);
        assert_eq!(s.len(), n * (n - 1));
        for v in 0..n {
            assert_eq!(s.iter().filter(|x| **x == v).count(), n - 1);
        }
        for i in 0..n {
            for j in 0..n {
                if i != j {
                    let times = (0..s.len()).filter(|t| s[*t] == i && s[(t + 1) % s.len()] == j).count();
                    assert_eq!(times, 1);
                }
            }
        }
        for t in 0..s.len() {
            assert_ne!(s[t], s[(t + 1) % s.len()]);
        }
    }
}

fn committee_with_addresses(ports: &[u16]) -> Committee {
    let mut authorities: Vec<Authority> = ports
        .iter()
        .enumerate()
        .map(|(i, port)| Authority {
            name: PublicKey([i as u8 + 1; 32]),
            stake: 1,
            address: Address { host: Host::V4(0x7f00_0001), port: *port },
        })
        .collect();
    authorities.sort_by_key(|a| a.name.0);
    Committee { authorities }
}

#[test]
fn leaders_follow_the_schedule_over_address_order() {
    // keys 1, 2, 3, 4 listen on ports 40, 10, 30, 20: positions 0..4 hold keys 2, 4, 3, 1,
    // and the schedule is 0 1 2 3 0 2 0 3 1 3 2 1
    let committee = committee_with_addresses(&[40, 10, 30, 20]);
    let elector = LeaderElector::new(committee);
    let expected = [2u8, 4, 3, 1, 2, 3, 2, 1, 4, 1, 3, 4];
    for (r, k) in expected.iter().enumerate() {
        assert_eq!(elector.get_leader(r as u64), PublicKey([*k; 32]));
        assert_eq!(elector.get_leader(r as u64 + 12), PublicKey([*k; 32]));
    }
    assert_eq!(elector.get_leader(u64::MAX), PublicKey([expected[(u64::MAX % 12) as usize]; 32]));
}

#[test]
fn every_member_succeeds_every_other_once_per_pass() {
    let committee = committee_with_addresses(&[5, 9, 1, 7, 3]);
    let elector = LeaderElector::new(committee);
    let n = 5u64;
    let pass = n * (n - 1);
    for a in 1..=5u8 {
        for b in 1..=5u8 {
            let times = (0..pass)
                .filter(|r| elector.get_leader(*r) == PublicKey([a; 32]) && elector.get_leader(r + 1) == PublicKey([b; 32]))
                .count();
            assert_eq!(times, if a == b { 0 } else { 1 });
        }
    }
}

#[test]
fn every_member_leads_equally_often() {
    let committee = committee_with_addresses(&[5, 9, 1, 7, 3]);
    let elector = LeaderElector::new(committee);
    for start in 0..25u64 {
        for k in 1..=5u8 {
            let turns = (start..start + 20).filter(|r| elector.get_leader(*r) == PublicKey([k; 32])).count();
            assert_eq!(turns, 4);
        }
        assert_ne!(elector.get_leader(start), elector.get_leader(start + 1));
    }
}

#[test]
fn same_members_elect_the_same_leaders() {
    let a = committee_with_addresses(&[5, 9, 1, 7, 3]);
    let mut b = committee_with_addresses(&[5, 9, 1, 7, 3]);
    for x in b.authorities.iter_mut() {
        x.stake = 7;
    }
    let ea = LeaderElector::new(a);
    let eb = LeaderElector::new(b);
    for r in 0..40u64 {
        assert_eq!(ea.get_leader(r), eb.get_leader(r));
    }
}

#[test]
fn single_member_always_leads() {
    let committee = committee_with_addresses(&[8]);
    let elector = LeaderElector::new(committee);
    assert_eq!(elector.get_leader(0), PublicKey([1; 32]));
    assert_eq!(elector.get_leader(12345), PublicKey([1; 32]));
}

#[test]
fn equal_addresses_keep_key_order() {
    // positions 0..3 hold keys 1, 2, 3; the schedule is 0 1 2 0 2 1
    let committee = committee_with_addresses(&[8, 8, 8]);
    let elector = LeaderElector::new(committee);
    let expected = [1u8, 2, 3, 1, 3, 2];
    for (r, k) in expected.iter().enumerate() {
        assert_eq!(elector.get_leader(r as u64), PublicKey([*k; 32]));
    }
}

#[test]
fn ipv4_members_come_before_ipv6_members() {
    // key 1 on an IPv6 address, keys 2 and 3 on IPv4 ones: positions 0..3 hold
    // keys 3, 2, 1, and the schedule is 0 1 2 0 2 1
    let mut authorities = vec![
        Authority {
            name: PublicKey([1; 32]),
            stake: 1,
            address: Address { host: Host::V6 { ip: 1, flowinfo: 0, scope_id: 0 }, port: 1 },
        },
        Authority { name: PublicKey([2; 32]), stake: 1, address: Address { host: Host::V4(0x7f00_0002), port: 9 } },
        Authority { name: PublicKey([3; 32]), stake: 1, address: Address { host: Host::V4(0x7f00_0001), port: 9 } },
    ];
    authorities.sort_by_key(|a| a.name.0);
    let elector = LeaderElector::new(Committee { authorities });
    let expected = [3u8, 2, 1, 3, 1, 2];
    for (r, k) in expected.iter().enumerate() {
        assert_eq!(elector.get_leader(r as u64), PublicKey([*k; 32]));
    }
}
