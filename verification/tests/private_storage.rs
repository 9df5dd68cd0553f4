use fastctx::edit::private_storage::{
    aligned_words, directory_io_error, managed_chain, private_descriptor,
    resolve_runtime_component, validate_directory_metadata, validate_file_metadata,
    validate_private_directory_path, windows_runtime_base, ComponentKind, DirectoryAction,
    DirectoryEvent, EntryFacts, PrivateChain, StoragePlatform, WindowsBase,
};

fn names(path: &str, separator: char) -> Vec<Vec<u8>> {
    path.split(separator)
        .filter(|name| !name.is_empty())
        .map(|name| name.as_bytes().to_vec())
        .collect()
}

fn chain_of(components: &[Vec<u8>]) -> Result<PrivateChain, String> {
    let mut shown = vec!["/".to_string()];
    for name in components {
        let above = shown.last().unwrap().trim_end_matches('/').to_string();
        shown.push(format!("{above}/{}", String::from_utf8_lossy(name)));
    }
    PrivateChain::new("edit-lock".to_string(), &components.to_vec(), &shown)
}

#[test]
fn managed_chain_ignores_an_earlier_profile_component_named_fastctx() {
    let path = r"C:\fastctx\profile\AppData\Local\fastctx\runtime\edit-locks";
    let components = names(path, '\\');
    let chain: Vec<String> = managed_chain(&components, StoragePlatform::Windows)
        .into_iter()
        .map(|count| String::from_utf8(components[..count].join(&b'\\')).unwrap())
        .collect();
    assert_eq!(
        chain,
        vec![
            r"C:\fastctx\profile\AppData\Local\fastctx".to_string(),
            r"C:\fastctx\profile\AppData\Local\fastctx\runtime".to_string(),
            path.to_string(),
        ]
    );
}

#[test]
fn permission_denied_error_has_an_in_place_recovery_path() {
    let message = directory_io_error(
        "open",
        r"C:\Users\tester\AppData\Local\fastctx",
        "edit-lock",
        "Access is denied. (os error 5)",
        true,
    );
    assert!(message.contains("owner-only Windows ACL"), "{message}");
    assert!(message.contains("elevated process under the same Windows account"));
    assert!(message.contains("repair that ACL in place"));
    assert!(message.contains("never deletes the directory"));
    assert!(message.contains("If access is still denied"));
}

#[test]
fn relative_or_lexically_escaping_private_directory_paths_are_rejected() {
    let relative = validate_private_directory_path(
        "relative/edit-locks",
        false,
        &vec![ComponentKind::Normal, ComponentKind::Normal],
        "edit-lock",
    )
    .unwrap_err();
    assert!(relative.contains("absolute, normalized path"), "{relative}");

    let error = validate_private_directory_path(
        "/tmp/inside/../outside",
        true,
        &vec![
            ComponentKind::Root,
            ComponentKind::Normal,
            ComponentKind::Normal,
            ComponentKind::Parent,
            ComponentKind::Normal,
        ],
        "edit-lock",
    )
    .unwrap_err();
    assert!(error.contains("absolute, normalized path"), "{error}");
}

fn directory(inode: u64, mode: u32) -> EntryFacts {
    EntryFacts {
        is_link: false,
        is_dir: true,
        is_file: false,
        device: 1,
        inode,
        mode,
    }
}

#[test]
fn relative_runtime_environment_never_produces_a_relative_lock_path() {
    let path =
        resolve_runtime_component("edit-locks", Some(b"relative-xdg"), b"relative-temp", 7);
    assert!(path.starts_with(b"/tmp/"), "{path:?}");
    assert_eq!(path, b"/tmp/fastctx-edit-locks-7");
}

#[test]
fn absolute_xdg_runtime_directory_is_used_without_an_architecture_split() {
    let path = resolve_runtime_component("edit-locks", Some(b"/run/user/1234"), b"/ignored", 7);
    assert_eq!(path, b"/run/user/1234/fastctx-edit-locks");
}

#[test]
fn private_directories_and_lock_files_are_regular_and_usable() {
    let components = names("/tmp/fastctx/runtime", '/');
    let mut chain = chain_of(&components).unwrap();
    let mut created = Vec::new();
    loop {
        let (action, at) = chain.next();
        let facts = directory(10 + at as u64, 0o700);
        let event = match action {
            DirectoryAction::Done => break,
            DirectoryAction::Create => {
                created.push(at);
                DirectoryEvent::Worked
            }
            DirectoryAction::OpenParent | DirectoryAction::Open | DirectoryAction::Secure => {
                DirectoryEvent::Worked
            }
            _ => DirectoryEvent::Facts(facts),
        };
        chain.react(event).unwrap();
    }
    assert_eq!(created, vec![0, 1]);
    let lock = EntryFacts {
        is_dir: false,
        is_file: true,
        ..directory(3, 0o600)
    };
    assert!(validate_file_metadata("/tmp/fastctx/test.lock", "edit lock", &lock).is_ok());
}

#[test]
fn links_are_rejected_instead_of_followed() {
    let link = EntryFacts {
        is_link: true,
        ..directory(3, 0o700)
    };
    let error = validate_directory_metadata("/tmp/fastctx", "edit-lock", &link).unwrap_err();
    assert!(error.contains("not a private directory"), "{error}");
    let error = validate_file_metadata("/tmp/escape.lock", "edit lock", &link).unwrap_err();
    assert!(error.contains("not a private regular file"), "{error}");
    let components = names("/tmp/fastctx", '/');
    let mut chain = chain_of(&components).unwrap();
    assert_eq!(chain.next(), (DirectoryAction::OpenParent, 0));
    chain.react(DirectoryEvent::Worked).unwrap();
    assert_eq!(chain.next(), (DirectoryAction::Create, 0));
    chain.react(DirectoryEvent::AlreadyExists).unwrap();
    assert!(chain.react(DirectoryEvent::Facts(link)).is_err());
}

#[test]
fn windows_storage_has_its_words() {
    assert_eq!(
        windows_runtime_base(Some(true), Some(true)),
        WindowsBase::LocalAppData
    );
    assert_eq!(
        windows_runtime_base(Some(false), Some(true)),
        WindowsBase::Profile
    );
    assert_eq!(windows_runtime_base(None, None), WindowsBase::Temporary);
    assert!(private_descriptor("S-1-5-21-7").contains("S-1-5-21-7"));
    assert_eq!(aligned_words(9, 8), 2);
    assert_eq!(aligned_words(8, 8), 1);
}

#[test]
fn the_root_itself_is_never_managed() {
    let error = chain_of(&[]).err();
    assert_eq!(
        error.as_deref(),
        Some(
            "Cannot create the edit-lock directory / because its managed root has no parent."
        )
    );
}

#[test]
fn a_parent_that_cannot_be_opened_ends_the_work() {
    let components = names("/home/tester/.fastctx/runtime", '/');
    let mut chain = chain_of(&components).unwrap();
    assert_eq!(chain.next(), (DirectoryAction::OpenParent, 0));
    let error = chain
        .react(DirectoryEvent::Failed("Permission denied".to_string()))
        .unwrap_err();
    assert_eq!(
        error,
        "Cannot open the parent of the edit-lock directory /home/tester: Permission denied"
    );
}

#[test]
fn components_without_a_usable_name_are_not_created() {
    let components = vec![b"tmp".to_vec(), b"a\0b".to_vec()];
    let mut chain = chain_of(&components).unwrap();
    let error = chain.react(DirectoryEvent::Worked).unwrap_err();
    assert_eq!(
        error,
        "Cannot create the edit-lock directory /tmp/a\0b because a path component contains a NUL byte."
    );

    let components = vec![b".fastctx".to_vec(), Vec::new()];
    let mut chain = chain_of(&components).unwrap();
    chain.react(DirectoryEvent::Worked).unwrap();
    assert_eq!(chain.next(), (DirectoryAction::Create, 0));
    chain.react(DirectoryEvent::Worked).unwrap();
    chain
        .react(DirectoryEvent::Facts(directory(3, 0o755)))
        .unwrap();
    chain.react(DirectoryEvent::Worked).unwrap();
    chain
        .react(DirectoryEvent::Facts(directory(3, 0o755)))
        .unwrap();
    chain.react(DirectoryEvent::Worked).unwrap();
    chain
        .react(DirectoryEvent::Facts(directory(3, 0o700)))
        .unwrap();
    let error = chain
        .react(DirectoryEvent::Facts(directory(3, 0o700)))
        .unwrap_err();
    assert_eq!(
        error,
        "Cannot create the edit-lock directory /.fastctx/ because a managed component has no name."
    );
}

#[test]
fn only_owner_only_permissions_are_secure() {
    let components = names("/tmp/locks", '/');
    let mut chain = chain_of(&components).unwrap();
    chain.react(DirectoryEvent::Worked).unwrap();
    chain.react(DirectoryEvent::AlreadyExists).unwrap();
    chain
        .react(DirectoryEvent::Facts(directory(3, 0o755)))
        .unwrap();
    chain.react(DirectoryEvent::AlreadyExists).unwrap();
    assert_eq!(chain.next(), (DirectoryAction::Open, 0));
    chain.react(DirectoryEvent::Worked).unwrap();
    chain
        .react(DirectoryEvent::Facts(directory(3, 0o755)))
        .unwrap();
    chain.react(DirectoryEvent::Worked).unwrap();
    let error = chain
        .react(DirectoryEvent::Facts(directory(3, 0o40750)))
        .unwrap_err();
    assert_eq!(
        error,
        "Cannot secure the edit-lock directory /tmp/locks because its permissions are not owner-only after chmod."
    );
}

#[test]
fn names_that_are_no_text_are_kept_as_they_are() {
    let path = resolve_runtime_component("edit-locks", None, b"/tmp/\xFF", 7);
    assert_eq!(path, b"/tmp/\xFF/fastctx-edit-locks-7");
    let components = vec![b"tmp".to_vec(), b"\xFF".to_vec()];
    assert_eq!(managed_chain(&components, StoragePlatform::Unix), vec![2]);
    let mut chain = chain_of(&components).unwrap();
    chain.react(DirectoryEvent::Worked).unwrap();
    let error = chain
        .react(DirectoryEvent::Failed("Permission denied".to_string()))
        .unwrap_err();
    assert_eq!(
        error,
        "Cannot create the edit-lock directory /tmp/\u{FFFD}: Permission denied"
    );
    let managed = vec![b"FastCtx".to_vec(), b"RUNTIME".to_vec(), b"x".to_vec()];
    assert_eq!(
        managed_chain(&managed, StoragePlatform::Windows),
        vec![1, 2, 3]
    );
    assert_eq!(managed_chain(&managed, StoragePlatform::Unix), vec![3]);
}
