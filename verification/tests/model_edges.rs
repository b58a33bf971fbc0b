use lineage::Sex::{Female, Male};
use lineage::{ConstructionError, KillError, Lineage, ParentChildInfo, Sex};

#[test]
fn kill_twice_reports_already_dead() {
    let mut lin = Lineage::new();
    lin.insert(ParentChildInfo::new("Parent House", Male, "Child House", Male))
        .unwrap();
    lin.kill("Child House").unwrap();
    let r = lin.kill("Child House");
    assert!(matches!(r, Err(KillError::PersonAlreadyDead)));
}

#[test]
fn kill_unknown_reports_not_found() {
    let mut lin = Lineage::new();
    let r = lin.kill("Nobody Nowhere");
    assert!(matches!(r, Err(KillError::PersonNotFound)));
}

#[test]
fn father_son_scenario() {
    let mut lin = Lineage::new();
    lin.insert(ParentChildInfo::new("Father House", Male, "Son House", Male))
        .unwrap();
    assert_eq!(lin.next_in_line("Father House").unwrap().name(), "Son House");
    lin.kill("Son House").unwrap();
    assert!(lin.next_in_line("Father House").is_none());
}

#[test]
fn brothers_via_shared_father() {
    let mut lin = Lineage::new();
    lin.insert(ParentChildInfo::new("Mother House", Female, "Son House", Male))
        .unwrap();
    lin.insert(ParentChildInfo::new("Father House", Male, "Son House", Male))
        .unwrap();
    lin.insert(ParentChildInfo::new("Mother House", Female, "SecondSon House", Male))
        .unwrap();
    lin.insert(ParentChildInfo::new("Father House", Male, "SecondSon House", Male))
        .unwrap();
    let son = lin.get_from_name("Son House").unwrap();
    let brothers = lin.get_brothers(son);
    assert_eq!(brothers.len(), 1);
    assert_eq!(brothers[0].name(), "SecondSon House");
    let second = lin.get_from_name("SecondSon House").unwrap();
    let brothers = lin.get_brothers(second);
    assert_eq!(brothers.len(), 1);
    assert_eq!(brothers[0].name(), "Son House");
}

#[test]
fn house_fallback_picks_alphabetical() {
    let mut lin = Lineage::new();
    // Zed House has no recorded children, siblings, or nephews; only
    // unrelated people share the house token.
    lin.insert(ParentChildInfo::new("Ma One", Female, "Zed House", Male))
        .unwrap();
    lin.insert(ParentChildInfo::new("Pa Two", Male, "Bob House", Male))
        .unwrap();
    lin.insert(ParentChildInfo::new("Pa Two", Male, "Amy House", Female))
        .unwrap();
    assert_eq!(lin.next_in_line("Zed House").unwrap().name(), "Amy House");
    lin.kill("Amy House").unwrap();
    assert_eq!(lin.next_in_line("Zed House").unwrap().name(), "Bob House");
}

#[test]
fn next_in_line_unknown_name_is_none() {
    let lin = Lineage::new();
    assert!(lin.next_in_line("Nobody Nowhere").is_none());
}

#[test]
fn next_in_line_skips_dead_within_tier() {
    let mut lin = Lineage::new();
    lin.insert(ParentChildInfo::new("Father House", Male, "Amy House", Male))
        .unwrap();
    lin.insert(ParentChildInfo::new("Father House", Male, "Ben House", Male))
        .unwrap();
    assert_eq!(lin.next_in_line("Father House").unwrap().name(), "Amy House");
    lin.kill("Amy House").unwrap();
    // a dead eldest son does not promote anyone past the living younger son
    let successor = lin.next_in_line("Father House").unwrap();
    assert!(successor.alive());
    assert_eq!(successor.name(), "Ben House");
}

#[test]
fn first_sex_recorded_wins() {
    let mut lin = Lineage::new();
    lin.insert(ParentChildInfo::new("Alex Stone", Male, "Kid Stone", Male))
        .unwrap();
    // a later record naming Alex Stone as a mother does not change the
    // first recorded sex
    lin.insert(ParentChildInfo::new("Granny Stone", Female, "Alex Stone", Female))
        .unwrap();
    let alex = lin.get_from_name("Alex Stone").unwrap();
    assert_eq!(alex.sex(), Sex::Male);
    // but the new record still files Alex under Granny's daughters
    let granny = lin.get_from_name("Granny Stone").unwrap();
    let daughters = lin.get_daughters_of(granny);
    assert_eq!(daughters.len(), 1);
    assert_eq!(daughters[0].name(), "Alex Stone");
}

#[test]
fn duplicate_record_rejected() {
    let mut lin = Lineage::new();
    lin.insert(ParentChildInfo::new("Father House", Male, "Son House", Male))
        .unwrap();
    // the very same record again still counts as a second father
    let r = lin.insert(ParentChildInfo::new("Father House", Male, "Son House", Male));
    assert!(matches!(r, Err(ConstructionError::FatherAlreadySet)));
}

#[test]
fn people_in_insertion_order() {
    let mut lin = Lineage::new();
    // the child of a record is resolved before the parent
    lin.insert(ParentChildInfo::new("Father House", Male, "Son House", Male))
        .unwrap();
    lin.insert(ParentChildInfo::new("Father House", Male, "Daughter House", Female))
        .unwrap();
    let names: Vec<&str> = lin.people().iter().map(|p| p.name()).collect();
    assert_eq!(names, vec!["Son House", "Father House", "Daughter House"]);
    for (i, p) in lin.people().iter().enumerate() {
        assert_eq!(p.id(), i);
    }
}

#[test]
fn get_from_idx_bounds() {
    let mut lin = Lineage::new();
    lin.insert(ParentChildInfo::new("Father House", Male, "Son House", Male))
        .unwrap();
    assert_eq!(lin.get_from_idx(0).unwrap().name(), "Son House");
    assert_eq!(lin.get_from_idx(1).unwrap().name(), "Father House");
    assert!(lin.get_from_idx(2).is_none());
}

#[test]
fn parent_child_info_fields() {
    let info = ParentChildInfo::new("Father House", Male, "Daughter House", Female);
    assert_eq!(info.parent_name, "Father House");
    assert_eq!(info.parent_sex, Sex::Male);
    assert_eq!(info.child_name, "Daughter House");
    assert_eq!(info.child_sex, Sex::Female);
}

#[test]
fn house_is_last_name_token() {
    let mut lin = Lineage::new();
    lin.insert(ParentChildInfo::new("Ann  Middle  Stone", Female, "Kid Stone ", Male))
        .unwrap();
    let ann = lin.get_from_name("Ann  Middle  Stone").unwrap();
    assert_eq!(ann.house(), "Stone");
    // the raw name is stored as given, trailing whitespace included
    let kid = lin.get_from_name("Kid Stone ").unwrap();
    assert_eq!(kid.name(), "Kid Stone ");
    assert_eq!(kid.house(), "Stone");
    assert!(lin.get_from_name("Kid Stone").is_none());
}

#[test]
fn vital_status_and_indices() {
    let mut lin = Lineage::new();
    lin.insert(ParentChildInfo::new("Father House", Male, "Son House", Male))
        .unwrap();
    lin.insert(ParentChildInfo::new("Mother House", Female, "Son House", Male))
        .unwrap();
    let son = lin.get_from_name("Son House").unwrap();
    assert!(son.alive());
    let father = lin.get_from_name("Father House").unwrap();
    let mother = lin.get_from_name("Mother House").unwrap();
    assert_eq!(son.father_idx(), Some(father.id()));
    assert_eq!(son.mother_idx(), Some(mother.id()));
    assert_eq!(father.sons_idx(), &vec![son.id()]);
    assert_eq!(mother.daughters_idx(), &Vec::<usize>::new());
    let son_id = son.id();
    lin.kill("Son House").unwrap();
    assert!(!lin.get_from_idx(son_id).unwrap().alive());
}

#[test]
fn nephew_duplicated_across_sibling_paths() {
    let mut lin = Lineage::new();
    // B House and S House are both siblings of P House, and N House is a
    // child of both, so N House arrives once per sibling path
    lin.insert(ParentChildInfo::new("Pa House", Male, "P House", Male))
        .unwrap();
    lin.insert(ParentChildInfo::new("Pa House", Male, "B House", Male))
        .unwrap();
    lin.insert(ParentChildInfo::new("Pa House", Male, "S House", Female))
        .unwrap();
    lin.insert(ParentChildInfo::new("B House", Male, "N House", Male))
        .unwrap();
    lin.insert(ParentChildInfo::new("S House", Female, "N House", Male))
        .unwrap();
    let p = lin.get_from_name("P House").unwrap();
    let nephews = lin.get_nephews(p);
    assert_eq!(nephews.len(), 2);
    assert_eq!(nephews[0].name(), "N House");
    assert_eq!(nephews[1].name(), "N House");
}
