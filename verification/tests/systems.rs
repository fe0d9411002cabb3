use rust_doom::context::{Context, ContextBuilder, ControlFlow};
use rust_doom::errors::{ErrorKind, Result};
use rust_doom::system::System;

struct FailsToCreate;

impl<'context> System<'context> for FailsToCreate {
    type Dependencies = ();

    fn debug_name() -> &'static str {
        "fails_to_create"
    }

    fn create(_dependencies: ()) -> Result<Self> {
        Err(ErrorKind::Context("inner"))
    }
}

struct FailsToSetUp;

impl<'context> System<'context> for FailsToSetUp {
    type Dependencies = ();

    fn debug_name() -> &'static str {
        "fails_to_set_up"
    }

    fn create(_dependencies: ()) -> Result<Self> {
        Ok(FailsToSetUp)
    }

    fn setup(&mut self, _dependencies: ()) -> Result<()> {
        Err(ErrorKind::Context("inner"))
    }
}

struct QuitsAfter {
    steps_left: u32,
}

impl<'context> System<'context> for QuitsAfter {
    type Dependencies = &'context mut ControlFlow;

    fn debug_name() -> &'static str {
        "quits_after"
    }

    fn create(_control_flow: &'context mut ControlFlow) -> Result<Self> {
        Ok(QuitsAfter { steps_left: 2 })
    }

    fn update(&mut self, control_flow: &'context mut ControlFlow) -> Result<()> {
        if self.steps_left == 0 {
            return Err(ErrorKind::Context("inner"));
        }
        self.steps_left -= 1;
        if self.steps_left == 0 {
            control_flow.quit_requested = true;
        }
        Ok(())
    }

    fn teardown(&mut self, _control_flow: &'context mut ControlFlow) -> Result<()> {
        Err(ErrorKind::Context("inner"))
    }
}

#[test]
fn failed_creation_names_the_system() {
    let built = ContextBuilder::new().system(FailsToCreate::bind());
    assert_eq!(built.err(), Some(ErrorKind::System("creation", "fails_to_create")));
}

#[test]
fn failed_setup_fails_the_build() {
    let builder = ContextBuilder::new().system(FailsToSetUp::bind()).unwrap();
    assert_eq!(builder.build().err(), Some(ErrorKind::Context("setup")));
}

#[test]
fn steps_until_quit_then_update_and_teardown_errors() {
    let mut context = ContextBuilder::new().system(QuitsAfter::bind()).unwrap().build().unwrap();
    assert!(!context.quit_requested());
    assert!(context.step().is_ok());
    assert!(!context.quit_requested());
    assert!(context.step().is_ok());
    assert!(context.quit_requested());
    assert_eq!(context.step().err(), Some(ErrorKind::Context("update")));
    assert_eq!(context.destroy().err(), Some(ErrorKind::Context("teardown")));
    assert!(context.destroy().is_ok());
}

type Log = std::rc::Rc<std::cell::RefCell<Vec<&'static str>>>;

struct Older {
    log: Log,
}

impl<'context> System<'context> for Older {
    type Dependencies = &'context Log;

    fn debug_name() -> &'static str {
        "older"
    }

    fn create(log: &'context Log) -> Result<Self> {
        log.borrow_mut().push("create older");
        Ok(Older { log: log.clone() })
    }

    fn setup(&mut self, _log: &'context Log) -> Result<()> {
        self.log.borrow_mut().push("setup older");
        Ok(())
    }

    fn update(&mut self, _log: &'context Log) -> Result<()> {
        self.log.borrow_mut().push("update older");
        Ok(())
    }

    fn teardown(&mut self, _log: &'context Log) -> Result<()> {
        self.log.borrow_mut().push("teardown older");
        Ok(())
    }

    fn destroy(self, _log: &'context Log) -> Result<()> {
        self.log.borrow_mut().push("destroy older");
        Ok(())
    }
}

struct Newer {
    log: Log,
}

impl<'context> System<'context> for Newer {
    type Dependencies = &'context Log;

    fn debug_name() -> &'static str {
        "newer"
    }

    fn create(log: &'context Log) -> Result<Self> {
        log.borrow_mut().push("create newer");
        Ok(Newer { log: log.clone() })
    }

    fn setup(&mut self, _log: &'context Log) -> Result<()> {
        self.log.borrow_mut().push("setup newer");
        Ok(())
    }

    fn update(&mut self, _log: &'context Log) -> Result<()> {
        self.log.borrow_mut().push("update newer");
        Ok(())
    }

    fn teardown(&mut self, _log: &'context Log) -> Result<()> {
        self.log.borrow_mut().push("teardown newer");
        Ok(())
    }

    fn destroy(self, _log: &'context Log) -> Result<()> {
        self.log.borrow_mut().push("destroy newer");
        Ok(())
    }
}

#[test]
fn hooks_run_oldest_first_then_newest_first() {
    let log: Log = std::rc::Rc::new(std::cell::RefCell::new(Vec::new()));
    let mut context = ContextBuilder::new()
        .inject(log.clone())
        .system(Older::bind())
        .unwrap()
        .system(Newer::bind())
        .unwrap()
        .build()
        .unwrap();
    assert!(context.step().is_ok());
    assert!(context.destroy().is_ok());
    assert_eq!(
        *log.borrow(),
        vec![
            "create older",
            "create newer",
            "setup older",
            "setup newer",
            "update older",
            "update newer",
            "teardown newer",
            "teardown older",
            "destroy newer",
            "destroy older",
        ]
    );
}
