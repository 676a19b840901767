use std::collections::HashMap;

use ksud::plan::{KernelCall, Step};
use ksud::umount::{
    add_umount, del_umount, ensure_config, list_umount, load_umount_config, wipe_umount, Config,
};

/// A fake file and kernel list that the steps act on.
#[derive(Default)]
struct Fake {
    file: Option<HashMap<String, u32>>,
    kernel: HashMap<String, u32>,
    kernel_calls: Vec<(String, u32)>,
    writes: usize,
}

impl Fake {
    fn run(&mut self, steps: Vec<Step>) {
        for step in steps {
            match step {
                Step::Kernel(KernelCall::UmountAdd { path, flags }) => {
                    self.kernel_calls.push((path.clone(), flags));
                    self.kernel.insert(path, flags);
                }
                Step::Kernel(KernelCall::UmountDel { path }) => {
                    self.kernel.remove(&path);
                }
                Step::Kernel(KernelCall::UmountWipe) => self.kernel.clear(),
                Step::StoreUmount(cfg) => {
                    self.writes += 1;
                    self.file = Some(cfg.paths.into_iter().collect());
                }
                other => panic!("unexpected step {other:?}"),
            }
        }
    }

    fn load(&self) -> Option<Config> {
        let stored = self.file.as_ref()?;
        let mut cfg = Config::new();
        for (p, f) in stored {
            cfg.insert(p, *f);
        }
        Some(cfg)
    }
}

fn config_of(entries: &[(&str, u32)]) -> Config {
    let mut cfg = Config::new();
    for (p, f) in entries {
        cfg.insert(p, *f);
    }
    cfg
}

fn listed(cfg: &Config) -> HashMap<String, u32> {
    list_umount(cfg).into_iter().collect()
}

#[test]
fn insert_overwrites_existing_path() {
    let mut cfg = config_of(&[("/a", 1), ("/b", 2)]);
    cfg.insert("/a", 7);
    assert_eq!(cfg.paths.len(), 2);
    assert_eq!(cfg.get("/a"), Some(7));
    assert_eq!(cfg.get("/b"), Some(2));
    assert_eq!(cfg.get("/c"), None);
}

#[test]
fn remove_drops_only_that_path() {
    let mut cfg = config_of(&[("/a", 1), ("/b", 2), ("/c", 3)]);
    cfg.remove("/b");
    assert_eq!(cfg.get("/b"), None);
    assert_eq!(cfg.get("/a"), Some(1));
    assert_eq!(cfg.get("/c"), Some(3));
    cfg.remove("/zzz");
    assert_eq!(cfg.paths.len(), 2);
}

#[test]
fn find_gives_index_of_path() {
    let cfg = config_of(&[("/a", 1), ("/b", 2)]);
    assert_eq!(cfg.find("/b"), Some(1));
    assert_eq!(cfg.find("/x"), None);
}

#[test]
fn add_then_list_contains_entry() {
    let mut fake = Fake::default();
    fake.file = Some(HashMap::new());
    fake.run(add_umount(fake.load().unwrap(), "/data/adb", 1));
    let cfg = fake.load().unwrap();
    assert_eq!(listed(&cfg).get("/data/adb"), Some(&1));
    assert_eq!(fake.kernel.get("/data/adb"), Some(&1));

    fake.run(add_umount(fake.load().unwrap(), "/data/adb", 2));
    let cfg = fake.load().unwrap();
    let list = listed(&cfg);
    assert_eq!(list.get("/data/adb"), Some(&2));
    assert_eq!(list.len(), 1);
    assert_eq!(fake.kernel.get("/data/adb"), Some(&2));
}

#[test]
fn add_sends_kernel_call_before_store() {
    let steps = add_umount(Config::new(), "/x", 3);
    assert_eq!(steps.len(), 2);
    assert!(matches!(&steps[0], Step::Kernel(KernelCall::UmountAdd { path, flags: 3 }) if path == "/x"));
    assert!(matches!(&steps[1], Step::StoreUmount(c) if c.get("/x") == Some(3)));
}

#[test]
fn del_of_absent_path_leaves_mapping() {
    let mut fake = Fake::default();
    fake.file = Some(HashMap::from([("/a".to_string(), 1)]));
    fake.run(del_umount(fake.load().unwrap(), "/missing"));
    assert_eq!(fake.file, Some(HashMap::from([("/a".to_string(), 1)])));
}

#[test]
fn del_of_present_path_removes_it() {
    let mut fake = Fake::default();
    fake.file = Some(HashMap::from([("/a".to_string(), 1), ("/b".to_string(), 4)]));
    fake.kernel = fake.file.clone().unwrap();
    let steps = del_umount(fake.load().unwrap(), "/a");
    assert!(matches!(&steps[0], Step::Kernel(KernelCall::UmountDel { path }) if path == "/a"));
    fake.run(steps);
    assert_eq!(fake.file, Some(HashMap::from([("/b".to_string(), 4)])));
    assert_eq!(fake.kernel, HashMap::from([("/b".to_string(), 4)]));
}

#[test]
fn wipe_empties_file_and_kernel() {
    let mut fake = Fake::default();
    fake.file = Some(HashMap::from([("/a".to_string(), 1), ("/b".to_string(), 2)]));
    fake.kernel = fake.file.clone().unwrap();
    let steps = wipe_umount();
    assert!(matches!(&steps[0], Step::Kernel(KernelCall::UmountWipe)));
    fake.run(steps);
    assert!(listed(&fake.load().unwrap()).is_empty());
    assert!(fake.kernel.is_empty());
}

#[test]
fn replay_adds_each_entry_once() {
    let mut fake = Fake::default();
    let cfg = config_of(&[("a", 1), ("b", 2)]);
    fake.run(load_umount_config(&cfg));
    let mut calls = fake.kernel_calls.clone();
    calls.sort();
    assert_eq!(calls, vec![("a".to_string(), 1), ("b".to_string(), 2)]);
    assert_eq!(fake.writes, 0);
}

#[test]
fn replay_into_reset_kernel_mirrors_file() {
    let mut fake = Fake::default();
    fake.file = Some(HashMap::from([("/x".to_string(), 5), ("/y".to_string(), 6), ("/z".to_string(), 0)]));
    let cfg = fake.load().unwrap();
    fake.run(load_umount_config(&cfg));
    assert_eq!(Some(fake.kernel.clone()), fake.file);
    assert_eq!(fake.kernel_calls.len(), 3);
}

#[test]
fn replay_of_empty_config_does_nothing() {
    assert!(load_umount_config(&Config::new()).is_empty());
}

#[test]
fn ensure_on_missing_file_stores_empty_mapping() {
    let mut fake = Fake::default();
    fake.run(ensure_config(&None));
    assert_eq!(fake.file, Some(HashMap::new()));
    assert_eq!(fake.writes, 1);
}

#[test]
fn ensure_on_valid_file_leaves_it() {
    let loaded = Some(config_of(&[("a", 1)]));
    assert!(ensure_config(&loaded).is_empty());
}

#[test]
fn list_gives_stored_entries() {
    let cfg = config_of(&[("/p", 9), ("/q", 0)]);
    assert_eq!(list_umount(&cfg), vec![("/p".to_string(), 9), ("/q".to_string(), 0)]);
}
