//! Handles that release the traces a compiled relation imports.

use differential_dataflow::operators::arrange::ShutdownButton;
use vstd::prelude::*;

verus! {

/// The button that differential-dataflow hands out where a trace is imported into a
/// dataflow. Pressing it lets go of what the import holds.
#[verifier::external_type_specification]
#[verifier::external_body]
#[verifier::reject_recursive_types(T)]
pub struct ExShutdownButton<T>(ShutdownButton<T>);

/// Calls `ShutdownButton::press` of differential-dataflow, which drops what the button
/// shares with the importing operator and schedules the operator. Trusted: the call
/// returns. The cells that it borrows are borrowed otherwise only while the scheduler
/// runs that operator, and nothing in this crate is called from there. Nothing is
/// claimed of the button afterwards.
#[verifier::external_body]
fn press<T>(button: &mut ShutdownButton<T>) {
    button.press();
}

/// A bundle of shutdown buttons, one for every site at which a compiled relation
/// imports a trace. It is the only handle to the relation: shutting it down presses
/// every button. Whoever owns a handle shuts it down before letting go of it.
#[verifier::reject_recursive_types(T)]
pub struct ShutdownHandle<T> {
    shutdown_buttons: Vec<ShutdownButton<T>>,
}

impl<T> ShutdownHandle<T> {
    /// The buttons that the handle controls, in the order in which they were added.
    pub closed spec fn buttons(&self) -> Seq<ShutdownButton<T>> {
        self.shutdown_buttons@
    }

    /// Returns an empty shutdown handle.
    pub fn empty() -> (handle: Self)
        ensures
            handle.buttons() == Seq::<ShutdownButton<T>>::empty(),
    {
        ShutdownHandle { shutdown_buttons: Vec::new() }
    }

    /// Wraps a single shutdown button into a shutdown handle.
    pub fn from_button(button: ShutdownButton<T>) -> (handle: Self)
        ensures
            handle.buttons() == seq![button],
    {
        let mut shutdown_buttons: Vec<ShutdownButton<T>> = Vec::new();
        shutdown_buttons.push(button);
        assert(shutdown_buttons@ =~= seq![button]);
        ShutdownHandle { shutdown_buttons }
    }

    /// Adds another shutdown button to this handle. This button will then also be
    /// pressed, whenever the handle is shut down.
    pub fn add_button(&mut self, button: ShutdownButton<T>)
        ensures
            final(self).buttons() == old(self).buttons().push(button),
    {
        self.shutdown_buttons.push(button);
    }

    /// Combines the buttons of another handle into self.
    pub fn merge_with(&mut self, other: Self)
        ensures
            final(self).buttons() == old(self).buttons() + other.buttons(),
    {
        let mut other = other;
        self.shutdown_buttons.append(&mut other.shutdown_buttons);
    }

    /// Combines two shutdown handles into a single one, which will control both.
    pub fn merge(left: Self, right: Self) -> (handle: Self)
        ensures
            handle.buttons() == left.buttons() + right.buttons(),
    {
        let mut handle = left;
        handle.merge_with(right);
        handle
    }

    /// The number of buttons that the handle controls.
    pub fn len(&self) -> (len: usize)
        ensures
            len == self.buttons().len(),
    {
        self.shutdown_buttons.len()
    }

    /// Presses every button, the last added first, and lets go of it. The handle
    /// controls nothing afterwards.
    pub fn shutdown(&mut self)
        ensures
            final(self).buttons() == Seq::<ShutdownButton<T>>::empty(),
    {
        while self.shutdown_buttons.len() > 0
            decreases self.shutdown_buttons@.len(),
        {
            match self.shutdown_buttons.pop() {
                Some(button) => {
                    let mut button = button;
                    press(&mut button);
                },
                None => {},
            }
        }
        assert(self.shutdown_buttons@ =~= Seq::<ShutdownButton<T>>::empty());
    }
}

} // verus!
