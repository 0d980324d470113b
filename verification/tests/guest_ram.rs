use std::collections::BTreeMap;

use minidox::vmm::ram::{KvmGuestRam, RamAction, RamIds, RamPage, RAM_PAGE_SIZE};
use minidox::vmm::Error;

/// Generation files and the memory of one guest that is mapped from them.
struct Guest {
    ram: KvmGuestRam,
    memory: Vec<u8>,
    log: Vec<u64>,
}

struct Host {
    ids: RamIds,
    generations: BTreeMap<u64, Vec<u8>>,
}

impl Host {
    fn new() -> Self {
        Host {
            ids: RamIds::new(),
            generations: BTreeMap::new(),
        }
    }

    fn perform(&mut self, ram: Option<&KvmGuestRam>, memory: &mut [u8], actions: &[RamAction]) {
        for action in actions {
            match *action {
                RamAction::CreateGeneration { generation, len } => {
                    assert!(!self.generations.contains_key(&generation));
                    self.generations.insert(generation, vec![0; len as usize]);
                }
                RamAction::GrowGeneration { generation, len } => {
                    self.generations
                        .get_mut(&generation)
                        .unwrap()
                        .resize(len as usize, 0);
                }
                RamAction::CopyPage {
                    page,
                    generation,
                    offset,
                } => {
                    let file = self.generations.get_mut(&generation).unwrap();
                    let at = offset as usize;
                    file[at..at + RAM_PAGE_SIZE]
                        .copy_from_slice(&memory[page * RAM_PAGE_SIZE..][..RAM_PAGE_SIZE]);
                }
                RamAction::MapRun {
                    start,
                    count,
                    generation,
                    offset,
                    ..
                } => {
                    let file = &self.generations[&generation];
                    memory[start * RAM_PAGE_SIZE..][..count * RAM_PAGE_SIZE]
                        .copy_from_slice(&file[offset as usize..][..count * RAM_PAGE_SIZE]);
                }
                RamAction::DiscardPrivate => {
                    let runs = ram.unwrap().map_all_pages(true);
                    self.perform(None, memory, &runs);
                }
            }
        }
    }

    fn create(&mut self, len: usize) -> Guest {
        let (ram, actions) = KvmGuestRam::new(len, &mut self.ids).unwrap();
        let mut memory = vec![0xff; len];
        self.perform(None, &mut memory, &actions);
        Guest {
            ram,
            memory,
            log: vec![0; 1],
        }
    }

    fn fork(&mut self, source: &mut Guest) -> Guest {
        let plan = source.ram.fork(&source.log, &mut self.ids);
        self.perform(None, &mut source.memory, plan.actions());
        let before = source.memory.clone();
        let actions = source.ram.install(&plan);
        let ram = &source.ram;
        self.perform(Some(ram), &mut source.memory, &actions);
        assert!(source.memory == before, "a fork does not change its source");
        source.log = vec![0; 1];
        let branch = source.ram.commit();
        let (ram, actions) = branch.materialize();
        let mut memory = vec![0xff; source.memory.len()];
        self.perform(None, &mut memory, &actions);
        Guest {
            ram,
            memory,
            log: vec![0; 1],
        }
    }
}

impl Guest {
    fn write(&mut self, offset: usize, bytes: &[u8]) {
        self.ram.write(&mut self.memory, offset, bytes).unwrap();
    }

    /// The guest program: stores a value in the second page.
    fn run(&mut self, value: u64) {
        self.memory[RAM_PAGE_SIZE..RAM_PAGE_SIZE + 8].copy_from_slice(&value.to_le_bytes());
        self.log[0] |= 1 << 1;
    }

    fn value(&self) -> u64 {
        let mut bytes = [0; 8];
        self.ram
            .read(&self.memory, RAM_PAGE_SIZE, &mut bytes)
            .unwrap();
        u64::from_le_bytes(bytes)
    }
}

#[test]
fn kvm_dirty_pages_form_recursive_cow_ram_branches() {
    let mut host = Host::new();
    let mut source = host.create(RAM_PAGE_SIZE * 3);
    source.write(0, b"program that stores 42");
    source.run(42);
    assert_eq!(source.value(), 42);

    let child = host.fork(&mut source);
    assert_eq!(child.value(), 42);
    let first_fork = KvmGuestRam::page_accounting(&vec![&source.ram, &child.ram]);
    assert_eq!(first_fork.resident_pages, 3);
    assert_eq!(first_fork.shared_pages, 3);
    assert_eq!(first_fork.backing_files, 1);

    source.write(0, b"program that stores 84");
    source.run(84);
    assert_eq!(source.value(), 84);
    assert_eq!(child.value(), 42);

    let grandchild = host.fork(&mut source);
    assert_eq!(grandchild.value(), 84);
    assert_eq!(child.value(), 42);
    let recursive = KvmGuestRam::page_accounting(&vec![&source.ram, &child.ram, &grandchild.ram]);
    assert_eq!(recursive.resident_pages, 5);
    assert_eq!(recursive.shared_pages, 3);
    assert_eq!(recursive.backing_files, 2);
}

#[test]
fn prepared_fork_copies_what_changed_meanwhile() {
    let mut host = Host::new();
    let mut source = host.create(RAM_PAGE_SIZE * 4);
    host.fork(&mut source);
    source.write(0, b"early");
    source.write(RAM_PAGE_SIZE, b"early");

    let (preparation, actions) = source.ram.prepare_fork(&[0, 1], &mut host.ids).unwrap();
    host.perform(None, &mut source.memory, &actions);
    source.memory[..4].copy_from_slice(b"late");
    let plan = source
        .ram
        .finish_prepared_branch(preparation, &[0], &mut host.ids)
        .unwrap();
    host.perform(None, &mut source.memory, plan.actions());
    let actions = source.ram.install(&plan);
    host.perform(None, &mut source.memory, &actions);
    let branch = source.ram.commit();
    let (_, actions) = branch.materialize();
    let mut memory = vec![0; RAM_PAGE_SIZE * 4];
    host.perform(None, &mut memory, &actions);
    assert_eq!(&memory[..5], b"latey");
    assert_eq!(&memory[RAM_PAGE_SIZE..RAM_PAGE_SIZE + 5], b"early");
    assert!(memory == source.memory);
}

#[test]
fn page_outside_ram_cannot_be_dirty() {
    let mut host = Host::new();
    let source = host.create(RAM_PAGE_SIZE * 2);
    assert!(matches!(
        source.ram.fork_dirty_pages(&[1, 5, 9], &mut host.ids),
        Err(Error::InvalidDirtyPage { page: 5, pages: 2 })
    ));
    assert!(source.ram.fork_dirty_pages(&[1, 0], &mut host.ids).is_ok());
}

#[test]
fn ram_is_made_of_whole_pages() {
    let mut ids = RamIds::new();
    assert!(matches!(
        KvmGuestRam::new(0, &mut ids),
        Err(Error::InvalidRamSize(0))
    ));
    assert!(matches!(
        KvmGuestRam::new(5000, &mut ids),
        Err(Error::InvalidRamSize(5000))
    ));
    let (ram, actions) = KvmGuestRam::new(8192, &mut ids).unwrap();
    assert_eq!(ram.len(), 8192);
    assert!(!ram.is_empty());
    assert_eq!(
        actions,
        vec![
            RamAction::CreateGeneration {
                generation: 1,
                len: 8192
            },
            RamAction::MapRun {
                start: 0,
                count: 2,
                generation: 1,
                offset: 0,
                private: true
            },
        ]
    );
}

#[test]
fn access_past_the_end_of_ram_is_refused() {
    let mut host = Host::new();
    let mut guest = host.create(RAM_PAGE_SIZE);
    let before = guest.memory.clone();
    assert!(matches!(
        guest.ram.write(&mut guest.memory, 4090, b"too long"),
        Err(Error::RamRange {
            offset: 4090,
            len: 8
        })
    ));
    assert!(guest.memory == before);
    let mut bytes = [7; 4];
    assert!(matches!(
        guest.ram.read(&guest.memory, usize::MAX, &mut bytes),
        Err(Error::RamRange { len: 4, .. })
    ));
    assert_eq!(bytes, [7; 4]);
    guest
        .ram
        .write(&mut guest.memory, 4088, b"just fit")
        .unwrap();
    assert_eq!(&guest.memory[4088..], b"just fit");
}

#[test]
fn vmm_error_texts() {
    assert_eq!(
        Error::InvalidRamSize(5000).message(),
        "invalid guest RAM size 5000"
    );
    assert_eq!(
        Error::RamRange { offset: 10, len: 0 }.message(),
        "guest RAM range offset=10 length=0 is out of bounds"
    );
    assert_eq!(
        Error::WorkerPanicked.message(),
        "Cloud Hypervisor VMM worker panicked"
    );
    let causes = vec!["outer".to_string(), "middle".to_string(), "inner".to_string()];
    assert_eq!(
        Error::backend("boot VM", &causes).message(),
        "boot VM: outer: middle: inner"
    );
    assert_eq!(
        Error::InvalidDirtyPage { page: 9, pages: 2 }.message(),
        "dirty guest page 9 is outside the 2 pages of guest RAM"
    );
}

#[test]
fn saved_pages_keep_their_numbers() {
    let page = |id, generation, offset| RamPage {
        id,
        generation,
        offset,
    };
    let saved = vec![page(9, 4, 0), page(3, 6, 0), page(5, 4, 4096)];
    let mut ids = RamIds::new();
    let (ram, actions) = KvmGuestRam::from_pages(saved.clone());
    ids.reserve(ram.pages());
    assert_eq!((ids.next_page, ids.next_generation), (10, 7));
    ids.reserve(&vec![page(2, 2, 0)]);
    assert_eq!((ids.next_page, ids.next_generation), (10, 7));

    assert_eq!(ram.pages(), &saved);
    assert_eq!(ram.len(), 3 * RAM_PAGE_SIZE);
    assert_eq!(actions.len(), 3);
    let accounting = KvmGuestRam::page_accounting(&vec![&ram, &ram]);
    assert_eq!(accounting.resident_pages, 3);
    assert_eq!(accounting.shared_pages, 3);
    assert_eq!(accounting.backing_files, 2);
}
