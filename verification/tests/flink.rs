use filetools::flink::{dotted_name, link_from_dir, on_existing_link, passed_over, Existing, LinkError};

#[test]
fn links_for_dotfiles() {
    let link = link_from_dir("/home/me", "/home/me/dotfiles/vimrc").unwrap().unwrap();
    assert_eq!("/home/me/.vimrc", link.link_from);
    assert_eq!("dotfiles/vimrc", link.relative_link);
    assert_eq!(None, link.parent);

    let link = link_from_dir("/home/me", "/home/me/dotfiles/config-git-ignore").unwrap().unwrap();
    assert_eq!("/home/me/.config/git/ignore", link.link_from);
    assert_eq!("../../dotfiles/config-git-ignore", link.relative_link);
    assert_eq!(Some("/home/me/.config/git".to_string()), link.parent);
}

#[test]
fn some_files_are_passed_over() {
    assert!(link_from_dir("/home/me", "/home/me/dotfiles/.git").unwrap().is_none());
    assert!(link_from_dir("/home/me", "/home/me/dotfiles/README.md").unwrap().is_none());
    assert!(link_from_dir("/home/me", "/home/me/dotfiles/README").unwrap().is_none());
    assert!(link_from_dir("/home/me", "/home/me/dotfiles/READM").unwrap().is_some());
    assert!(passed_over(".x"));
    assert!(!passed_over("x."));
    assert!(!passed_over(""));
}

#[test]
fn links_fail_by_kind() {
    assert_eq!(Some(LinkError::NoFileName), link_from_dir("/home/me", "/").err());
    assert_eq!(Some(LinkError::NoRelativePath), link_from_dir("/home/me", "dotfiles/vimrc").err());
}

#[test]
fn dots_and_dashes() {
    assert_eq!((".vimrc".to_string(), false), dotted_name("vimrc"));
    assert_eq!((".a/b/c".to_string(), true), dotted_name("a-b-c"));
    assert_eq!((".".to_string(), false), dotted_name(""));
    assert_eq!(Existing::Remove, on_existing_link(true));
    assert_eq!(Existing::Skip, on_existing_link(false));
}
