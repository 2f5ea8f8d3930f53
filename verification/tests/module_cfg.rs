//! Scenarios for the launch configuration, the token type and the
//! callback wrapper hooks.

use reactor::node::ModuleCfg;
use reactor::wrapper::{nofun, Wrapper};
use reactor::{module, Token};

#[test]
fn module_defaults_to_current_thread_and_no_existing_loop() {
    let cfg: ModuleCfg<u32> = module();
    assert!(!cfg.new_thread);
    assert!(cfg.with_loop.is_none());
}

#[test]
fn module_builders_set_their_fields() {
    let cfg: ModuleCfg<u32> = module().new_thread(true);
    assert!(cfg.new_thread);
    assert!(cfg.with_loop.is_none());
    let cfg = cfg.with_loop(7);
    assert!(cfg.new_thread);
    assert_eq!(cfg.with_loop, Some(7));
    let cfg = cfg.new_thread(false);
    assert!(!cfg.new_thread);
    assert_eq!(cfg.with_loop, Some(7));
}

#[test]
fn tokens_convert_from_and_to_their_number() {
    let t = Token::from(33usize);
    assert_eq!(t, Token(33));
    assert_eq!(t.0, 33);
    let u: Token = 101usize.into();
    assert!(t < u);
}

#[test]
fn wrapper_keeps_its_hooks() {
    let w = Wrapper::mk(nofun, nofun);
    (w.before)();
    (w.after)();
    let w2 = Wrapper::mk(|| 1 + 1, nofun);
    assert_eq!((w2.before)(), 2);
}
