use boltzmann_agent::multi_agent::AgentRoster;

#[derive(Debug, Clone, PartialEq)]
struct Agent {
    id: String,
    state: Vec<f64>,
    energy: f64,
}

fn agent(id: &str, state: Vec<f64>, energy: f64) -> Agent {
    Agent { id: id.to_string(), state, energy }
}

fn add(roster: &mut AgentRoster<Agent>, a: Agent) {
    roster.insert(a.id.clone(), a);
}

fn test_ensemble() -> AgentRoster<Agent> {
    let mut ens = AgentRoster::new();
    add(&mut ens, agent("a", vec![1.0], 1.0));
    add(&mut ens, agent("b", vec![2.0], 2.0));
    add(&mut ens, agent("c", vec![3.0], 3.0));
    ens
}

#[test]
fn test_add_and_remove() {
    let mut ens = test_ensemble();
    assert_eq!(ens.len(), 3);
    ens.remove("b");
    assert_eq!(ens.len(), 2);
    assert!(ens.get("b").is_none());
}

#[test]
fn ids_keep_join_order() {
    let ens = test_ensemble();
    assert_eq!(ens.ids(), &["a".to_string(), "b".to_string(), "c".to_string()]);
    let energies: Vec<f64> = ens.agents().iter().map(|a| a.energy).collect();
    assert_eq!(energies, vec![1.0, 2.0, 3.0]);
}

#[test]
fn reading_after_adding_gives_the_agent() {
    let mut ens = test_ensemble();
    add(&mut ens, agent("d", vec![4.0, 4.5], 4.0));
    assert_eq!(ens.get("d"), Some(&agent("d", vec![4.0, 4.5], 4.0)));
    assert_eq!(ens.get("a"), Some(&agent("a", vec![1.0], 1.0)));
    assert_eq!(ens.len(), 4);
}

#[test]
fn re_adding_an_id_replaces_in_place() {
    let mut ens = test_ensemble();
    add(&mut ens, agent("a", vec![9.0], 9.0));
    assert_eq!(ens.len(), 3);
    assert_eq!(ens.ids(), &["a".to_string(), "b".to_string(), "c".to_string()]);
    assert_eq!(ens.get("a").unwrap().energy, 9.0);
}

#[test]
fn removing_hands_back_the_agent_and_keeps_the_order() {
    let mut ens = test_ensemble();
    let removed = ens.remove("b");
    assert_eq!(removed, Some(agent("b", vec![2.0], 2.0)));
    assert_eq!(ens.ids(), &["a".to_string(), "c".to_string()]);
    assert_eq!(ens.remove("b"), None);
    assert_eq!(ens.remove("zzz"), None);
    assert_eq!(ens.len(), 2);
}

#[test]
fn removing_a_new_agent_restores_the_roster() {
    let mut ens = test_ensemble();
    add(&mut ens, agent("e", vec![], 0.5));
    ens.remove("e");
    assert_eq!(ens.ids(), test_ensemble().ids());
    assert_eq!(ens.agents(), test_ensemble().agents());
}

#[test]
fn get_mut_changes_one_agent_only() {
    let mut ens = test_ensemble();
    {
        let a = ens.get_mut("c").unwrap();
        a.state = vec![0.0];
        a.energy = 0.0;
    }
    assert_eq!(ens.get("c"), Some(&agent("c", vec![0.0], 0.0)));
    assert_eq!(ens.get("a"), Some(&agent("a", vec![1.0], 1.0)));
    assert!(ens.get_mut("nobody").is_none());
}

#[test]
fn empty_roster() {
    let mut ens: AgentRoster<Agent> = AgentRoster::new();
    assert!(ens.is_empty());
    assert_eq!(ens.len(), 0);
    assert!(ens.get("a").is_none());
    add(&mut ens, agent("a", vec![], 0.0));
    assert!(!ens.is_empty());
}
