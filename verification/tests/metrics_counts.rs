use lrmdns::message::Rcode;
use lrmdns::metrics::{Metrics, Protocol};
use lrmdns::rr::RrType;

#[test]
fn test_metrics_recording() {
    let mut metrics = Metrics::new();

    metrics.record_query(Protocol::Udp, false);
    metrics.record_query(Protocol::Tcp, true);
    metrics.record_response(Rcode::NoError);
    metrics.record_response(Rcode::NxDomain);
    metrics.record_query_type(RrType::A);
    metrics.record_latency(1500);

    let snapshot = metrics.get_snapshot();

    assert_eq!(snapshot.total_queries, 2);
    assert_eq!(snapshot.udp_queries, 1);
    assert_eq!(snapshot.tcp_queries, 1);
    assert_eq!(snapshot.edns_queries, 1);
    assert_eq!(snapshot.noerror_responses, 1);
    assert_eq!(snapshot.nxdomain_responses, 1);
    assert_eq!(snapshot.avg_latency_us, 750);
}

#[test]
fn test_all_response_codes() {
    let mut metrics = Metrics::new();

    metrics.record_response(Rcode::NoError);
    metrics.record_response(Rcode::NxDomain);
    metrics.record_response(Rcode::ServFail);
    metrics.record_response(Rcode::Refused);
    metrics.record_response(Rcode::FormErr);

    let snapshot = metrics.get_snapshot();

    assert_eq!(snapshot.noerror_responses, 1);
    assert_eq!(snapshot.nxdomain_responses, 1);
    assert_eq!(snapshot.servfail_responses, 1);
    assert_eq!(snapshot.refused_responses, 1);
    assert_eq!(snapshot.formerr_responses, 1);
}

#[test]
fn test_rate_limited_and_errors() {
    let mut metrics = Metrics::new();

    metrics.record_rate_limited();
    metrics.record_rate_limited();
    metrics.record_error();
    metrics.record_error();
    metrics.record_error();

    let snapshot = metrics.get_snapshot();

    assert_eq!(snapshot.rate_limited, 2);
    assert_eq!(snapshot.errors, 3);
}

#[test]
fn test_latency_min_max() {
    let mut metrics = Metrics::new();

    for _ in 0..5 {
        metrics.record_query(Protocol::Udp, false);
    }

    metrics.record_latency(100);
    metrics.record_latency(500);
    metrics.record_latency(50);
    metrics.record_latency(1000);
    metrics.record_latency(200);

    let snapshot = metrics.get_snapshot();

    assert_eq!(snapshot.min_latency_us, 50);
    assert_eq!(snapshot.max_latency_us, 1000);
    assert_eq!(snapshot.avg_latency_us, (100 + 500 + 50 + 1000 + 200) / 5);
}

#[test]
fn test_multiple_query_types() {
    let mut metrics = Metrics::new();

    metrics.record_query_type(RrType::A);
    metrics.record_query_type(RrType::Aaaa);
    metrics.record_query_type(RrType::A);
    metrics.record_query_type(RrType::Mx);
    metrics.record_query_type(RrType::A);
    metrics.record_query_type(RrType::Aaaa);

    let snapshot = metrics.get_snapshot();

    assert_eq!(snapshot.count_for(RrType::A), 3);
    assert_eq!(snapshot.count_for(RrType::Aaaa), 2);
    assert_eq!(snapshot.count_for(RrType::Mx), 1);
    assert_eq!(snapshot.count_for(RrType::Srv), 0);
}

#[test]
fn test_zero_queries_latency() {
    let metrics = Metrics::new();
    let snapshot = metrics.get_snapshot();
    assert_eq!(snapshot.avg_latency_us, 0);
    assert_eq!(snapshot.total_queries, 0);
    // The untouched minimum sentinel reads as zero.
    assert_eq!(snapshot.min_latency_us, 0);
}

#[test]
fn test_unknown_response_code() {
    let mut metrics = Metrics::new();

    metrics.record_response(Rcode::NotImp);
    metrics.record_response(Rcode::Other(6));

    let snapshot = metrics.get_snapshot();

    assert_eq!(snapshot.noerror_responses, 0);
    assert_eq!(snapshot.nxdomain_responses, 0);
    assert_eq!(snapshot.servfail_responses, 0);
    assert_eq!(snapshot.refused_responses, 0);
    assert_eq!(snapshot.formerr_responses, 0);
}

#[test]
fn test_tcp_connection_metrics() {
    let mut metrics = Metrics::new();

    metrics.record_tcp_connection();
    metrics.record_tcp_connection();
    metrics.record_tcp_connection();

    let snapshot = metrics.get_snapshot();
    assert_eq!(snapshot.tcp_connections, 3);
    assert_eq!(snapshot.avg_queries_per_connection, 0);
}

#[test]
fn test_tcp_queries_per_connection() {
    let mut metrics = Metrics::new();

    metrics.record_tcp_connection();
    metrics.record_tcp_connection_closed(5);
    metrics.record_tcp_connection();
    metrics.record_tcp_connection_closed(3);

    let snapshot = metrics.get_snapshot();
    assert_eq!(snapshot.tcp_connections, 2);
    // (5 + 3) / 2
    assert_eq!(snapshot.avg_queries_per_connection, 4);
    assert_eq!(snapshot.tcp_total_queries, 8);
}

#[test]
fn test_tcp_connection_timeouts() {
    let mut metrics = Metrics::new();

    metrics.record_tcp_connection();
    metrics.record_tcp_connection_timeout();
    metrics.record_tcp_connection();
    metrics.record_tcp_connection_timeout();

    let snapshot = metrics.get_snapshot();
    assert_eq!(snapshot.tcp_connection_timeouts, 2);
}

#[test]
fn test_tcp_metrics_zero_connections() {
    let metrics = Metrics::new();
    let snapshot = metrics.get_snapshot();
    assert_eq!(snapshot.tcp_connections, 0);
    assert_eq!(snapshot.avg_queries_per_connection, 0);
    assert_eq!(snapshot.tcp_connection_timeouts, 0);
}

#[test]
fn test_tcp_connection_with_zero_queries() {
    let mut metrics = Metrics::new();
    metrics.record_tcp_connection();
    metrics.record_tcp_connection_closed(0);
    let snapshot = metrics.get_snapshot();
    assert_eq!(snapshot.tcp_connections, 1);
    assert_eq!(snapshot.avg_queries_per_connection, 0);
}
