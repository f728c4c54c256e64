//! The default log directives, through a real subscriber.
use std::sync::{Arc, Mutex};
use stream_server::config::DEFAULT_LOG_FILTER;
use tracing::callsite::{Callsite, Identifier};
use tracing::field::FieldSet;
use tracing::metadata::Kind;
use tracing::subscriber::Interest;
use tracing::{Event, Level, Metadata};
use tracing_subscriber::layer::SubscriberExt;

#[derive(Clone, Default)]
struct Collect(Arc<Mutex<Vec<String>>>);

impl<S: tracing::Subscriber> tracing_subscriber::Layer<S> for Collect {
    fn on_event(&self, event: &Event<'_>, _ctx: tracing_subscriber::layer::Context<'_, S>) {
        self.0.lock().unwrap().push(event.metadata().target().to_string());
    }
}

/// Where the events of this file come from.
struct Here;

impl Callsite for Here {
    fn set_interest(&self, _interest: Interest) {}

    fn metadata(&self) -> &Metadata<'_> {
        unreachable!("no subscriber asks a callsite that was never registered")
    }
}

/// An event of this target and level, if anything listens to it.
fn emit(level: Level, target: &'static str) {
    let metadata: &'static Metadata<'static> = Box::leak(Box::new(Metadata::new(
        "event",
        target,
        level,
        None,
        None,
        None,
        FieldSet::new(&[], Identifier(&Here)),
        Kind::EVENT,
    )));
    tracing::dispatcher::get_default(|dispatch| {
        if dispatch.enabled(metadata) {
            dispatch.event(&Event::new(metadata, &metadata.fields().value_set_all(&[])));
        }
    });
}

#[test]
fn the_repeating_dht_and_upnp_warnings_are_filtered_out_but_librqbit_warn_is_not() {
    let collected = Collect::default();
    let subscriber = tracing_subscriber::registry()
        .with(tracing_subscriber::EnvFilter::new(DEFAULT_LOG_FILTER))
        .with(collected.clone());
    tracing::subscriber::with_default(subscriber, || {
        // The two that would drown everything else.
        emit(Level::WARN, "librqbit_dht::dht");
        emit(Level::WARN, "librqbit_upnp");
        // Must still get through.
        emit(Level::ERROR, "librqbit_dht::dht");
        emit(Level::WARN, "librqbit_dht::persistence");
        emit(Level::WARN, "librqbit::torrent_state");
        emit(Level::INFO, "stream_server::lib");
    });

    let targets = collected.0.lock().unwrap().clone();
    assert_eq!(
        targets,
        vec![
            "librqbit_dht::dht",
            "librqbit_dht::persistence",
            "librqbit::torrent_state",
            "stream_server::lib",
        ]
    );
}
