//! A batching, deduplicating key loader, modelled as a synchronous state
//! machine: callers register keys in the open window, the scheduler flushes
//! the window into one batch, and the dispatcher hands every caller the
//! resolution of its own key. The loader remembers the batches in flight and
//! the resolved ones, so that no key is fetched twice in one unit of work.

pub mod window;
pub mod dispatch;
pub mod loader;
pub mod users;
pub mod laws;
