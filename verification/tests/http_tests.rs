use inference_core::http::bad_request;
use inference_core::http::error_response;
use inference_core::http::not_found;
use inference_core::http::route;
use inference_core::http::status_for;
use inference_core::http::success_message;
use inference_core::http::HttpMethod;
use inference_core::http::Route;
use inference_core::http::ServeError;

#[test]
fn only_post_api_chat_is_routed() {
    assert_eq!(route(&"/api/chat".to_string(), HttpMethod::Post), Route::Chat);
    assert_eq!(route(&"/api/chat".to_string(), HttpMethod::Get), Route::NotFound);
    assert_eq!(route(&"/api/chat".to_string(), HttpMethod::Put), Route::NotFound);
    assert_eq!(route(&"/".to_string(), HttpMethod::Post), Route::NotFound);
    assert_eq!(route(&"/api/chats".to_string(), HttpMethod::Post), Route::NotFound);
    assert_eq!(route(&"".to_string(), HttpMethod::Other), Route::NotFound);
}

#[test]
fn unrouted_requests_get_an_empty_404() {
    let r = not_found();
    assert_eq!(r.status, 404);
    assert_eq!(r.body, "");
}

#[test]
fn malformed_body_gets_an_empty_400() {
    let r = bad_request();
    assert_eq!(r.status, 400);
    assert_eq!(r.body, "");
}

#[test]
fn every_error_maps_to_its_status() {
    assert_eq!(status_for(ServeError::Validation), 400);
    assert_eq!(status_for(ServeError::ModelLoad), 500);
    assert_eq!(status_for(ServeError::SessionBusy), 500);
    assert_eq!(status_for(ServeError::Timeout), 500);
    assert_eq!(status_for(ServeError::Inference), 500);
}

#[test]
fn error_responses_have_empty_bodies() {
    let r = error_response(ServeError::ModelLoad);
    assert_eq!(r.status, 500);
    assert_eq!(r.body, "");
    let r = error_response(ServeError::Validation);
    assert_eq!(r.status, 400);
    assert_eq!(r.body, "");
}

#[test]
fn success_bodies_carry_the_fixed_prefix() {
    assert_eq!(success_message(&"hi".to_string()), "Inference result: hi");
    assert_eq!(success_message(&"".to_string()), "Inference result: ");
}
